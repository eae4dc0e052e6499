//! Generated ids: a one-letter prefix followed by a decimal number.
use vstd::prelude::*;

verus! {

pub open spec fn digit_char(d: int) -> char {
    (d + 48) as char
}

/// The decimal digits of `n`, most significant first, without leading zeros.
pub open spec fn decimal(n: nat) -> Seq<char>
    decreases n,
{
    if n < 10 {
        seq![digit_char(n as int)]
    } else {
        decimal(n / 10).push(digit_char((n % 10) as int))
    }
}

/// An id made of the prefix letter and the decimal number `n`.
pub open spec fn numbered(prefix: char, n: nat) -> Seq<char> {
    seq![prefix] + decimal(n)
}

/// Reads a sequence of digits back as a number.
pub open spec fn parse_decimal(s: Seq<char>) -> int
    decreases s.len(),
{
    if s.len() == 0 {
        0
    } else {
        parse_decimal(s.drop_last()) * 10 + (s.last() as int - 48)
    }
}

/// The number an id carries after its prefix letter.
pub open spec fn id_number(s: Seq<char>) -> int {
    parse_decimal(s.subrange(1, s.len() as int))
}

/// The id has the prefix letter and a number of at least `i`.
pub open spec fn numbered_at_least(s: Seq<char>, prefix: char, i: int) -> bool {
    s.len() >= 1 && s[0] == prefix && id_number(s) >= i
}

/// How many ids have the prefix letter and a number of at least `i`.
pub open spec fn count_numbered_from(ids: Seq<Seq<char>>, prefix: char, i: int) -> nat
    decreases ids.len(),
{
    if ids.len() == 0 {
        0
    } else {
        count_numbered_from(ids.drop_last(), prefix, i) + if numbered_at_least(
            ids.last(),
            prefix,
            i,
        ) {
            1nat
        } else {
            0nat
        }
    }
}

pub proof fn lemma_digit_char(d: int)
    requires
        0 <= d < 10,
    ensures
        digit_char(d) as int == d + 48,
{
}

pub proof fn lemma_parse_decimal(n: nat)
    ensures
        parse_decimal(decimal(n)) == n,
        decimal(n).len() >= 1,
    decreases n,
{
    if n < 10 {
        lemma_digit_char(n as int);
        assert(seq![digit_char(n as int)].drop_last() =~= Seq::<char>::empty());
        assert(parse_decimal(Seq::<char>::empty()) == 0);
        assert(decimal(n) == seq![digit_char(n as int)]);
    } else {
        lemma_digit_char((n % 10) as int);
        lemma_parse_decimal(n / 10);
        assert(decimal(n).drop_last() =~= decimal(n / 10));
        assert(decimal(n).last() == digit_char((n % 10) as int));
        assert(parse_decimal(decimal(n)) == parse_decimal(decimal(n / 10)) * 10 + (n % 10));
        assert((n / 10) * 10 + n % 10 == n) by (nonlinear_arith);
    }
}

/// Different numbers give different ids.
pub proof fn lemma_numbered_injective(prefix: char, i: nat, j: nat)
    requires
        numbered(prefix, i) == numbered(prefix, j),
    ensures
        i == j,
{
    lemma_parse_decimal(i);
    lemma_parse_decimal(j);
    assert(numbered(prefix, i).subrange(1, numbered(prefix, i).len() as int) =~= decimal(i));
    assert(numbered(prefix, j).subrange(1, numbered(prefix, j).len() as int) =~= decimal(j));
}

pub proof fn lemma_id_number(prefix: char, i: nat)
    ensures
        id_number(numbered(prefix, i)) == i,
        numbered(prefix, i).len() >= 1,
        numbered(prefix, i)[0] == prefix,
{
    lemma_parse_decimal(i);
    assert(numbered(prefix, i).subrange(1, numbered(prefix, i).len() as int) =~= decimal(i));
}

pub proof fn lemma_count_bounded(ids: Seq<Seq<char>>, prefix: char, i: int)
    ensures
        count_numbered_from(ids, prefix, i) <= ids.len(),
    decreases ids.len(),
{
    if ids.len() > 0 {
        lemma_count_bounded(ids.drop_last(), prefix, i);
    }
}

/// When the id numbered `i` is in use, fewer ids are numbered from `i + 1`
/// on than from `i` on.
pub proof fn lemma_count_decreases(ids: Seq<Seq<char>>, prefix: char, i: nat)
    ensures
        count_numbered_from(ids, prefix, (i + 1) as int) <= count_numbered_from(ids, prefix, i as int),
        ids.contains(numbered(prefix, i)) ==> count_numbered_from(ids, prefix, (i + 1) as int)
            < count_numbered_from(ids, prefix, i as int),
    decreases ids.len(),
{
    lemma_id_number(prefix, i);
    if ids.len() > 0 {
        lemma_count_decreases(ids.drop_last(), prefix, i);
        if ids.contains(numbered(prefix, i)) && ids.last() != numbered(prefix, i) {
            let k = choose|k: int| 0 <= k < ids.len() && ids[k] == numbered(prefix, i);
            assert(ids.drop_last()[k] == ids[k]);
        }
    }
}

fn digit_str(d: u128) -> (r: &'static str)
    requires
        d < 10,
    ensures
        r@ == seq![digit_char(d as int)],
{
    if d == 0 {
        proof {
            reveal_strlit("0");
        }
        "0"
    } else if d == 1 {
        proof {
            reveal_strlit("1");
        }
        "1"
    } else if d == 2 {
        proof {
            reveal_strlit("2");
        }
        "2"
    } else if d == 3 {
        proof {
            reveal_strlit("3");
        }
        "3"
    } else if d == 4 {
        proof {
            reveal_strlit("4");
        }
        "4"
    } else if d == 5 {
        proof {
            reveal_strlit("5");
        }
        "5"
    } else if d == 6 {
        proof {
            reveal_strlit("6");
        }
        "6"
    } else if d == 7 {
        proof {
            reveal_strlit("7");
        }
        "7"
    } else if d == 8 {
        proof {
            reveal_strlit("8");
        }
        "8"
    } else {
        proof {
            reveal_strlit("9");
        }
        "9"
    }
}

/// Appends the decimal digits of `n`.
pub fn push_decimal(s: &mut String, n: u128)
    ensures
        final(s)@ == old(s)@ + decimal(n as nat),
    decreases n,
{
    if n >= 10 {
        push_decimal(s, n / 10);
    }
    s.append(digit_str(n % 10));
    assert(final(s)@ =~= old(s)@ + decimal(n as nat));
}

/// The id made of `prefix` followed by the decimal digits of `n`.
pub fn numbered_string(prefix: &str, n: u128) -> (r: String)
    ensures
        r@ == prefix@ + decimal(n as nat),
        prefix@.len() == 1 ==> r@ == numbered(prefix@[0], n as nat),
{
    let mut s = String::from_str(prefix);
    push_decimal(&mut s, n);
    assert(prefix@.len() == 1 ==> prefix@ =~= seq![prefix@[0]]);
    s
}

/// `r` is the lowest-numbered id with the prefix, from one past the number
/// of ids on, that is not among `ids`.
pub open spec fn first_free_numbered(ids: Seq<Seq<char>>, prefix: char, r: Seq<char>) -> bool {
    exists|i: nat|
        {
            &&& i >= ids.len() + 1
            &&& r == numbered(prefix, i)
            &&& !ids.contains(r)
            &&& forall|j: nat| ids.len() + 1 <= j < i ==> ids.contains(#[trigger] numbered(prefix, j))
        }
}

pub open spec fn strings_view(v: Seq<String>) -> Seq<Seq<char>> {
    v.map_values(|s: String| s@)
}

fn contains_string(v: &Vec<String>, s: &String) -> (r: bool)
    ensures
        r == strings_view(v@).contains(s@),
{
    for i in 0..v.len()
        invariant
            forall|j: int| 0 <= j < i ==> v@[j]@ != s@,
    {
        if v[i] == *s {
            assert(strings_view(v@)[i as int] == s@);
            return true;
        }
    }
    assert forall|j: int| 0 <= j < strings_view(v@).len() implies strings_view(v@)[j] != s@ by {
        assert(strings_view(v@)[j] == v@[j]@);
    }
    false
}

/// The lowest-numbered id with the one-letter prefix, from one past the
/// number of used ids on, that is not among the used ids.
pub fn first_free_id(used: &Vec<String>, prefix: &str) -> (r: String)
    requires
        prefix@.len() == 1,
    ensures
        first_free_numbered(strings_view(used@), prefix@[0], r@),
{
    let ghost ids = strings_view(used@);
    let ghost p = prefix@[0];
    let n = used.len() as u128;
    let mut i: u128 = n + 1;
    proof {
        lemma_count_bounded(ids, p, i as int);
    }
    loop
        invariant
            ids == strings_view(used@),
            p == prefix@[0],
            prefix@.len() == 1,
            n == ids.len(),
            n <= 0xffff_ffff_ffff_ffffu128,
            n + 1 <= i,
            i + count_numbered_from(ids, p, i as int) <= 2 * n + 1,
            forall|j: nat| n + 1 <= j < i ==> ids.contains(#[trigger] numbered(p, j)),
        decreases count_numbered_from(ids, p, i as int),
    {
        let candidate = numbered_string(prefix, i);
        if !contains_string(used, &candidate) {
            return candidate;
        }
        proof {
            lemma_count_decreases(ids, p, i as nat);
        }
        i = i + 1;
    }
}

} // verus!
