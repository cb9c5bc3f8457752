//! Building strings character by character, and the sequences that describe them.

use vstd::prelude::*;

verus! {

/// `String::push` appends the given character to the end of the string and changes nothing
/// else of it.
pub assume_specification[ std::string::String::push ](s: &mut std::string::String, c: char)
    ensures
        final(s)@ == old(s)@.push(c),
;

/// The indentation of nesting level `level`: four spaces per level.
pub open spec fn indentation(level: nat) -> Seq<char> {
    Seq::new(4 * level, |i: int| ' ')
}

/// The parts in order, with `sep` between each two neighbours.
pub open spec fn join(parts: Seq<Seq<char>>, sep: Seq<char>) -> Seq<char>
    decreases parts.len(),
{
    if parts.len() == 0 {
        Seq::empty()
    } else if parts.len() == 1 {
        parts[0]
    } else {
        join(parts.drop_last(), sep) + sep + parts.last()
    }
}

/// The parts in order, one after the other.
pub open spec fn concat(parts: Seq<Seq<char>>) -> Seq<char>
    decreases parts.len(),
{
    if parts.len() == 0 {
        Seq::empty()
    } else {
        parts[0] + concat(parts.drop_first())
    }
}

/// The views of the strings of `parts`, in order.
pub open spec fn views_of(parts: Seq<String>) -> Seq<Seq<char>> {
    Seq::new(parts.len(), |i: int| parts[i]@)
}

/// One level more of indentation is four more spaces.
pub proof fn lemma_indentation_step(level: nat)
    ensures
        indentation(level + 1) == indentation(level).push(' ').push(' ').push(' ').push(' '),
{
    assert(indentation(level + 1) =~= indentation(level).push(' ').push(' ').push(' ').push(' '));
}

/// Appends one level of indentation to `s`.
pub fn push_indent(s: &mut String)
    ensures
        final(s)@ == old(s)@.push(' ').push(' ').push(' ').push(' '),
{
    s.push(' ');
    s.push(' ');
    s.push(' ');
    s.push(' ');
}

/// The indentation of level `level` as a string.
pub fn indentation_string(level: usize) -> (s: String)
    ensures
        s@ == indentation(level as nat),
{
    let mut s = String::new();
    let mut i: usize = 0;
    assert(s@ =~= indentation(0));
    while i < level
        invariant
            i <= level,
            s@ == indentation(i as nat),
        decreases level - i,
    {
        push_indent(&mut s);
        proof {
            lemma_indentation_step(i as nat);
        }
        i = i + 1;
    }
    s
}

/// The strings of `parts` in order, with `sep` between each two neighbours.
pub fn join_strings(parts: &Vec<String>, sep: &str) -> (s: String)
    ensures
        s@ == join(views_of(parts@), sep@),
{
    let mut s = String::new();
    let mut i: usize = 0;
    while i < parts.len()
        invariant
            i <= parts.len(),
            s@ == join(views_of(parts@).take(i as int), sep@),
        decreases parts.len() - i,
    {
        let ghost done = views_of(parts@).take(i as int);
        let ghost next = views_of(parts@).take(i as int + 1);
        if i > 0 {
            s.append(sep);
        }
        s.append(parts[i].as_str());
        proof {
            assert(next.drop_last() =~= done);
            assert(next.last() == parts@[i as int]@);
            if i > 0 {
                assert(s@ =~= join(done, sep@) + sep@ + next.last());
            } else {
                assert(s@ =~= next[0]);
            }
        }
        i = i + 1;
    }
    proof {
        assert(views_of(parts@).take(parts@.len() as int) =~= views_of(parts@));
    }
    s
}

/// The characters of `s`, in order.
pub fn chars_of(s: &str) -> (v: Vec<char>)
    ensures
        v@ == s@,
{
    let mut v: Vec<char> = Vec::new();
    for c in it: s.chars()
        invariant
            v@ == it.seq().take(it.index()),
            it.seq() == s@,
    {
        v.push(c);
        proof {
            assert(it.seq().take(it.index() + 1) =~= it.seq().take(it.index()).push(c));
        }
    }
    proof {
        assert(s@.take(s@.len() as int) =~= s@);
    }
    v
}

/// The decimal digit of value `d`.
pub open spec fn digit(d: nat) -> char {
    if d == 0 {
        '0'
    } else if d == 1 {
        '1'
    } else if d == 2 {
        '2'
    } else if d == 3 {
        '3'
    } else if d == 4 {
        '4'
    } else if d == 5 {
        '5'
    } else if d == 6 {
        '6'
    } else if d == 7 {
        '7'
    } else if d == 8 {
        '8'
    } else {
        '9'
    }
}

/// The decimal numeral of `n`, without leading zeros.
pub open spec fn decimal(n: nat) -> Seq<char>
    decreases n,
{
    if n < 10 {
        seq![digit(n)]
    } else {
        decimal(n / 10).push(digit(n % 10))
    }
}

fn digit_char(d: usize) -> (c: char)
    requires
        d < 10,
    ensures
        c == digit(d as nat),
{
    if d == 0 {
        '0'
    } else if d == 1 {
        '1'
    } else if d == 2 {
        '2'
    } else if d == 3 {
        '3'
    } else if d == 4 {
        '4'
    } else if d == 5 {
        '5'
    } else if d == 6 {
        '6'
    } else if d == 7 {
        '7'
    } else if d == 8 {
        '8'
    } else {
        '9'
    }
}

/// The decimal numeral of `n` as a string.
pub fn decimal_string(n: usize) -> (s: String)
    ensures
        s@ == decimal(n as nat),
    decreases n,
{
    if n < 10 {
        let mut s = String::new();
        s.push(digit_char(n));
        proof {
            assert(s@ =~= seq![digit(n as nat)]);
        }
        s
    } else {
        let mut s = decimal_string(n / 10);
        s.push(digit_char(n % 10));
        s
    }
}

} // verus!
