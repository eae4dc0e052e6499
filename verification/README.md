# grafdag

An interactive viewer and editor for layered directed graphs: documents of
nodes (optionally nested in container nodes), links between them and layers
that show or hide parts of the graph, laid out automatically and edited from
the keyboard.

`src/` is the verified library. Every function there carries a contract that
Verus proves:

- `document`: the document model, lookups by id, visibility through layers,
  fresh ids, and cleaning up dangling references.
- `undo`: the editing actions, applying them, and the undo history with
  coalescing of quick successive edits; `deletions` states what running
  the actions that delete a node or a layer leaves of a document.
- `rank`: islands (connected parts) of a graph and the rank of each node
  along the flow.
- `nesting`, `ancestry`, `exits`: which copy of each node is laid out in
  which container (a node whose parent is hidden is seen in that parent's
  containers), the copies of links between them, and how links are seen
  from, and handed down into, each container.
- `layout`: flow directions and how arrow keys map onto them.
- `editor`, `panel`: a document with its history and selection, the
  commands that edit it or move through it (into and out of containers
  among them) and the side panel's edits; `keys` maps key presses
  and arrows to those commands.
- `paths`, `selection`, `search`, `commands`, `render`, `widget`: the editor's
  decisions: paths between selected nodes, the selection and its history,
  searching, and the edits each command makes.
- `server`: routing the document server's requests (with the media type
  each bundled file is served as), embedding the document in the page it
  serves, and which port to try next when the one asked for is taken.

`app/` is the program around it: the HTTP server, reading and writing the
document as JSON, and the floating-point geometry of the layout (sizes,
positions, crossing reduction and link routes), which calls into the library
for everything else.
