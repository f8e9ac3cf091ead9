use vstd::prelude::*;
use vstd::string::{StrSliceExecFns, StringExecFns};

use crate::util::text::{chars_of, str_eq};
use vstd::utf8::is_ascii_chars;

verus! {

/// Unit of a human-readable size.
#[derive(Debug, PartialEq, Eq, Clone, Copy, Structural)]
pub enum SizeUnit {
    B,
    KB,
    MB,
    GB,
    TB,
}

#[derive(Debug)]
pub enum SizeParseError {
    InvalidFormat(String),
}

/// The characters with the Unicode `White_Space` property, which `char::is_whitespace`
/// accepts.
pub open spec fn is_white_space(c: char) -> bool {
    ||| ('\u{9}' <= c && c <= '\u{d}')
    ||| c == ' '
    ||| c == '\u{85}'
    ||| c == '\u{a0}'
    ||| c == '\u{1680}'
    ||| ('\u{2000}' <= c && c <= '\u{200a}')
    ||| c == '\u{2028}'
    ||| c == '\u{2029}'
    ||| c == '\u{202f}'
    ||| c == '\u{205f}'
    ||| c == '\u{3000}'
}

/// `s` without its leading whitespace.
pub open spec fn trimmed_start(s: Seq<char>) -> Seq<char>
    decreases s.len(),
{
    if s.len() > 0 && is_white_space(s[0]) {
        trimmed_start(s.drop_first())
    } else {
        s
    }
}

/// `s` without its trailing whitespace.
pub open spec fn trimmed_end(s: Seq<char>) -> Seq<char>
    decreases s.len(),
{
    if s.len() > 0 && is_white_space(s.last()) {
        trimmed_end(s.drop_last())
    } else {
        s
    }
}

/// `s` without leading and trailing whitespace.
pub open spec fn trimmed(s: Seq<char>) -> Seq<char> {
    trimmed_end(trimmed_start(s))
}

/// The uppercase form of `s`, as computed by `str::to_uppercase`.
pub uninterp spec fn uppercase(s: Seq<char>) -> Seq<char>;

/// Calls `str::trim`, which its documentation describes as removing leading and trailing
/// whitespace, whitespace being the characters with the Unicode `White_Space` property.
#[verifier::external_body]
fn trim(s: &str) -> (res: &str)
    ensures
        res@ == trimmed(s@),
{
    s.trim()
}

/// `s` with the ASCII letters `a` to `z` turned into `A` to `Z`, every other character kept.
pub open spec fn ascii_uppercase(s: Seq<char>) -> Seq<char> {
    s.map_values(|c: char| if 'a' <= c && c <= 'z' { ((c as u32) - 32) as char } else { c })
}

/// Calls `str::to_uppercase`.  The contract names the result `uppercase`, and states what
/// the Unicode uppercase mapping is on ASCII text: `a` to `z` become `A` to `Z`, and every
/// other ASCII character stays as it is.
#[verifier::external_body]
fn to_uppercase(s: &str) -> (res: String)
    ensures
        res@ == uppercase(s@),
        is_ascii_chars(s@) ==> res@ == ascii_uppercase(s@),
{
    s.to_uppercase()
}

/// Characters that make up the number of a size: ASCII digits and `.`.
pub open spec fn is_number_char(c: char) -> bool {
    ('0' <= c && c <= '9') || c == '.'
}

/// The characters of `s` that are (`number == true`) or are not number characters, in order.
pub open spec fn partition_chars(s: Seq<char>, number: bool) -> Seq<char>
    decreases s.len(),
{
    if s.len() == 0 {
        Seq::empty()
    } else {
        let rest = partition_chars(s.drop_last(), number);
        if is_number_char(s.last()) == number {
            rest.push(s.last())
        } else {
            rest
        }
    }
}

/// The unit that an uppercase unit name stands for.
pub open spec fn unit_of(name: Seq<char>) -> Option<SizeUnit> {
    if name == "B"@ {
        Some(SizeUnit::B)
    } else if name == "K"@ {
        Some(SizeUnit::KB)
    } else if name == "M"@ {
        Some(SizeUnit::MB)
    } else if name == "G"@ {
        Some(SizeUnit::GB)
    } else if name == "T"@ {
        Some(SizeUnit::TB)
    } else {
        None
    }
}

/// The characters of a size's number are exactly the ASCII decimal digits and `.`.
pub proof fn lemma_number_chars(c: char)
    ensures
        is_number_char(c) <==> (c == '0' || c == '1' || c == '2' || c == '3' || c == '4' || c
            == '5' || c == '6' || c == '7' || c == '8' || c == '9' || c == '.'),
{
}

/// Splitting a size keeps every character: the number part holds only ASCII digits and `.`,
/// the unit part none of them, and together they hold as many characters as the input.
pub proof fn lemma_partition_classes(s: Seq<char>)
    ensures
        forall|i: int|
            0 <= i < partition_chars(s, true).len() ==> ('0' <= #[trigger] partition_chars(
                s,
                true,
            )[i] && partition_chars(s, true)[i] <= '9') || partition_chars(s, true)[i] == '.',
        forall|i: int|
            0 <= i < partition_chars(s, false).len() ==> !(('0' <= #[trigger] partition_chars(
                s,
                false,
            )[i] && partition_chars(s, false)[i] <= '9') || partition_chars(s, false)[i] == '.'),
        partition_chars(s, true).len() + partition_chars(s, false).len() == s.len(),
    decreases s.len(),
{
    if s.len() > 0 {
        lemma_partition_classes(s.drop_last());
        let t = partition_chars(s.drop_last(), true);
        let f = partition_chars(s.drop_last(), false);
        if is_number_char(s.last()) {
            assert(partition_chars(s, true) == t.push(s.last()));
            assert(partition_chars(s, false) == f);
            assert forall|i: int| 0 <= i < t.len() + 1 implies ('0' <= #[trigger] t.push(
                s.last(),
            )[i] && t.push(s.last())[i] <= '9') || t.push(s.last())[i] == '.' by {
                if i < t.len() {
                    assert(t.push(s.last())[i] == t[i]);
                }
            }
        } else {
            assert(partition_chars(s, true) == t);
            assert(partition_chars(s, false) == f.push(s.last()));
            assert forall|i: int| 0 <= i < f.len() + 1 implies !(('0' <= #[trigger] f.push(
                s.last(),
            )[i] && f.push(s.last())[i] <= '9') || f.push(s.last())[i] == '.') by {
                if i < f.len() {
                    assert(f.push(s.last())[i] == f[i]);
                }
            }
        }
    }
}

/// A size written as a number (ASCII digits and `.`) followed by a unit (none of them)
/// splits into exactly that number and that unit, e.g. `100m` into `100` and `m`.
pub proof fn lemma_partition_number_then_unit(d: Seq<char>, u: Seq<char>)
    requires
        forall|i: int| 0 <= i < d.len() ==> ('0' <= #[trigger] d[i] && d[i] <= '9') || d[i] == '.',
        forall|i: int|
            0 <= i < u.len() ==> !(('0' <= #[trigger] u[i] && u[i] <= '9') || u[i] == '.'),
    ensures
        partition_chars(d + u, true) == d,
        partition_chars(d + u, false) == u,
    decreases d.len() + u.len(),
{
    if u.len() > 0 {
        let u1 = u.drop_last();
        assert forall|i: int| 0 <= i < u1.len() implies !(('0' <= #[trigger] u1[i] && u1[i] <= '9')
            || u1[i] == '.') by {
            assert(u1[i] == u[i]);
        }
        lemma_partition_number_then_unit(d, u1);
        assert((d + u).drop_last() =~= d + u1);
        assert((d + u).last() == u.last());
        assert(!(('0' <= u[u.len() - 1] && u[u.len() - 1] <= '9') || u[u.len() - 1] == '.'));
        assert(u1.push(u.last()) =~= u);
    } else if d.len() > 0 {
        let d1 = d.drop_last();
        assert forall|i: int| 0 <= i < d1.len() implies ('0' <= #[trigger] d1[i] && d1[i] <= '9')
            || d1[i] == '.' by {
            assert(d1[i] == d[i]);
        }
        lemma_partition_number_then_unit(d1, u);
        assert(d + u =~= d);
        assert(d1 + u =~= d1);
        assert(('0' <= d[d.len() - 1] && d[d.len() - 1] <= '9') || d[d.len() - 1] == '.');
        assert(d1.push(d.last()) =~= d);
    } else {
        assert(d + u =~= Seq::<char>::empty());
    }
}

/// The unit that a single letter names, in either case: `b`, `k`, `m`, `g` or `t`.
pub open spec fn unit_letter(c: char) -> Option<SizeUnit> {
    if c == 'b' || c == 'B' {
        Some(SizeUnit::B)
    } else if c == 'k' || c == 'K' {
        Some(SizeUnit::KB)
    } else if c == 'm' || c == 'M' {
        Some(SizeUnit::MB)
    } else if c == 'g' || c == 'G' {
        Some(SizeUnit::GB)
    } else if c == 't' || c == 'T' {
        Some(SizeUnit::TB)
    } else {
        None
    }
}

/// Bytes per unit.
pub open spec fn unit_bytes(unit: SizeUnit) -> nat {
    match unit {
        SizeUnit::B => 1,
        SizeUnit::KB => 1024,
        SizeUnit::MB => 1024 * 1024,
        SizeUnit::GB => 1024 * 1024 * 1024,
        SizeUnit::TB => 1024 * 1024 * 1024 * 1024,
    }
}

impl SizeUnit {
    /// Bytes per unit.
    pub fn multiplier(&self) -> (res: u64)
        ensures
            res == unit_bytes(*self),
    {
        match self {
            SizeUnit::B => 1,
            SizeUnit::KB => 1024,
            SizeUnit::MB => 1024 * 1024,
            SizeUnit::GB => 1024 * 1024 * 1024,
            SizeUnit::TB => 1024 * 1024 * 1024 * 1024,
        }
    }
}

/// Splits a size such as `1.5g` into its number part (digits and `.`) and its unit part
/// (every other character), after trimming surrounding whitespace.
pub fn size_spec_parts(s: &str) -> (res: (String, String))
    ensures
        res.0@ == partition_chars(trimmed(s@), true),
        res.1@ == partition_chars(trimmed(s@), false),
        forall|i: int|
            0 <= i < res.0@.len() ==> ('0' <= #[trigger] res.0@[i] && res.0@[i] <= '9') || res.0@[i]
                == '.',
        forall|i: int|
            0 <= i < res.1@.len() ==> !(('0' <= #[trigger] res.1@[i] && res.1@[i] <= '9')
                || res.1@[i] == '.'),
        res.0@.len() + res.1@.len() == trimmed(s@).len(),
{
    proof {
        lemma_partition_classes(trimmed(s@));
    }
    let t = trim(s);
    let chars = chars_of(t);
    let mut num = String::new();
    let mut unit = String::new();
    let mut i: usize = 0;
    proof {
        assert(t@.take(0) =~= Seq::<char>::empty());
    }
    while i < chars.len()
        invariant
            chars@ == t@,
            0 <= i <= chars.len(),
            num@ == partition_chars(t@.take(i as int), true),
            unit@ == partition_chars(t@.take(i as int), false),
        decreases chars.len() - i,
    {
        let c = chars[i];
        let piece = t.substring_char(i, i + 1);
        proof {
            assert(piece@ =~= seq![c]);
            assert(t@.take(i + 1).drop_last() =~= t@.take(i as int));
            assert(t@.take(i + 1).last() == c);
        }
        if ('0' <= c && c <= '9') || c == '.' {
            num.append(piece);
        } else {
            unit.append(piece);
        }
        i = i + 1;
    }
    proof {
        assert(t@.take(chars@.len() as int) =~= t@);
    }
    (num, unit)
}

/// The unit named by the unit part of a size: the part trimmed and uppercased is one of
/// `B`, `K`, `M`, `G` or `T`.
pub fn size_unit_from_str(unit_part: &str) -> (res: Option<SizeUnit>)
    ensures
        res == unit_of(uppercase(trimmed(unit_part@))),
        is_ascii_chars(trimmed(unit_part@)) ==> res == unit_of(ascii_uppercase(trimmed(unit_part@))),
        unit_part@.len() == 1 && unit_letter(unit_part@[0]) is Some ==> res == unit_letter(
            unit_part@[0],
        ),
{
    let trimmed_part = trim(unit_part);
    proof {
        if unit_part@.len() == 1 && unit_letter(unit_part@[0]) is Some {
            let c = unit_part@[0];
            assert(unit_part@.drop_first().len() == 0);
            assert(trimmed_start(unit_part@) == unit_part@);
            assert(trimmed(unit_part@) == unit_part@);
            assert(is_ascii_chars(unit_part@));
            reveal_strlit("B");
            reveal_strlit("K");
            reveal_strlit("M");
            reveal_strlit("G");
            reveal_strlit("T");
            let up = ascii_uppercase(unit_part@);
            assert("B"@[0] == 'B' && "K"@[0] == 'K' && "M"@[0] == 'M' && "G"@[0] == 'G');
            if c == 'b' || c == 'B' {
                assert(up =~= "B"@);
            } else if c == 'k' || c == 'K' {
                assert(up =~= "K"@);
                assert(up[0] == 'K');
            } else if c == 'm' || c == 'M' {
                assert(up =~= "M"@);
                assert(up[0] == 'M');
            } else if c == 'g' || c == 'G' {
                assert(up =~= "G"@);
                assert(up[0] == 'G');
            } else {
                assert(up =~= "T"@);
                assert(up[0] == 'T');
            }
            assert(unit_of(up) == unit_letter(c));
        }
    }
    let name = to_uppercase(trimmed_part);
    let name = name.as_str();
    if str_eq(name, "B") {
        Some(SizeUnit::B)
    } else if str_eq(name, "K") {
        Some(SizeUnit::KB)
    } else if str_eq(name, "M") {
        Some(SizeUnit::MB)
    } else if str_eq(name, "G") {
        Some(SizeUnit::GB)
    } else if str_eq(name, "T") {
        Some(SizeUnit::TB)
    } else {
        None
    }
}

} // verus!
