//! Byte-string rendering: decimal numbers, the destruction message, and
//! the survivor-line fragments, with their exact sequence specifications.

use vstd::prelude::*;

verus! {

/// Decimal digits of `n`, most significant first.
pub open spec fn dec_digits(n: nat) -> Seq<u8>
    decreases n,
{
    if n < 10 {
        seq![(48 + n) as u8]
    } else {
        dec_digits(n / 10).push((48 + n % 10) as u8)
    }
}

/// The bytes of `" has been destroyed by ant "`.
pub open spec fn destroyed_by_label() -> Seq<u8> {
    seq![
        32u8, 104u8, 97u8, 115u8, 32u8, 98u8, 101u8, 101u8, 110u8, 32u8, 100u8, 101u8, 115u8,
        116u8, 114u8, 111u8, 121u8, 101u8, 100u8, 32u8, 98u8, 121u8, 32u8, 97u8, 110u8, 116u8,
        32u8,
    ]
}

/// The bytes of `" and ant "`.
pub open spec fn and_ant_label() -> Seq<u8> {
    seq![32u8, 97u8, 110u8, 100u8, 32u8, 97u8, 110u8, 116u8, 32u8]
}

/// The destruction message for colony `name`, torn down by agents `a`
/// and `b`.
pub open spec fn destruction_line(name: Seq<u8>, a: u16, b: u16) -> Seq<u8> {
    name + destroyed_by_label() + dec_digits(a as nat) + and_ant_label() + dec_digits(b as nat)
        + seq![33u8]
}

/// The survivor-line fragment announcing a link in direction `d`: a
/// space, the direction's lowercase token, and an equals sign.
pub open spec fn dir_label(d: crate::types::Direction) -> Seq<u8> {
    match d {
        crate::types::Direction::North => seq![32u8, 110u8, 111u8, 114u8, 116u8, 104u8, 61u8],
        crate::types::Direction::South => seq![32u8, 115u8, 111u8, 117u8, 116u8, 104u8, 61u8],
        crate::types::Direction::East => seq![32u8, 101u8, 97u8, 115u8, 116u8, 61u8],
        crate::types::Direction::West => seq![32u8, 119u8, 101u8, 115u8, 116u8, 61u8],
    }
}

/// Byte-wise lexicographic order: `a` at or before `b`.
pub open spec fn lex_le(a: Seq<u8>, b: Seq<u8>) -> bool
    decreases a.len(),
{
    if a.len() == 0 {
        true
    } else if b.len() == 0 {
        false
    } else if a[0] < b[0] {
        true
    } else if a[0] > b[0] {
        false
    } else {
        lex_le(a.drop_first(), b.drop_first())
    }
}

/// Any two byte strings are ordered one way or the other.
pub proof fn lemma_lex_total(a: Seq<u8>, b: Seq<u8>)
    ensures
        lex_le(a, b) || lex_le(b, a),
    decreases a.len(),
{
    if a.len() > 0 && b.len() > 0 && a[0] == b[0] {
        lemma_lex_total(a.drop_first(), b.drop_first());
    }
}

/// The lexicographic order is transitive.
pub proof fn lemma_lex_trans(a: Seq<u8>, b: Seq<u8>, c: Seq<u8>)
    requires
        lex_le(a, b),
        lex_le(b, c),
    ensures
        lex_le(a, c),
    decreases a.len(),
{
    if a.len() > 0 && b.len() > 0 && c.len() > 0 && a[0] == b[0] && b[0] == c[0] {
        lemma_lex_trans(a.drop_first(), b.drop_first(), c.drop_first());
    }
}

/// Two byte strings ordered both ways are the same string.
pub proof fn lemma_lex_antisym(a: Seq<u8>, b: Seq<u8>)
    requires
        lex_le(a, b),
        lex_le(b, a),
    ensures
        a == b,
    decreases a.len(),
{
    if a.len() == 0 {
        assert(b.len() == 0);
        assert(a =~= b);
    } else {
        assert(b.len() > 0);
        assert(a[0] == b[0]);
        lemma_lex_antisym(a.drop_first(), b.drop_first());
        assert forall|i: int| 0 <= i < a.len() implies a[i] == b[i] by {
            if i > 0 {
                assert(a[i] == a.drop_first()[i - 1]);
                assert(b[i] == b.drop_first()[i - 1]);
            }
        }
        assert(a =~= b);
    }
}

/// Dropping an equal prefix does not change the order.
pub proof fn lemma_lex_skip(a: Seq<u8>, b: Seq<u8>, i: int)
    requires
        0 <= i <= a.len(),
        i <= b.len(),
        forall|j: int| 0 <= j < i ==> a[j] == b[j],
    ensures
        lex_le(a, b) == lex_le(a.skip(i), b.skip(i)),
    decreases i,
{
    if i > 0 {
        assert(a[0] == b[0]);
        assert(forall|j: int| 0 <= j < i - 1 ==> a.drop_first()[j] == b.drop_first()[j]);
        lemma_lex_skip(a.drop_first(), b.drop_first(), i - 1);
        assert(a.drop_first().skip(i - 1) =~= a.skip(i));
        assert(b.drop_first().skip(i - 1) =~= b.skip(i));
        assert(lex_le(a, b) == lex_le(a.drop_first(), b.drop_first()));
    } else {
        assert(a.skip(0) =~= a);
        assert(b.skip(0) =~= b);
    }
}

/// Decides the lexicographic order on byte strings.
pub fn lex_le_bytes(a: &Vec<u8>, b: &Vec<u8>) -> (r: bool)
    ensures
        r == lex_le(a@, b@),
{
    let mut i: usize = 0;
    while i < a.len() && i < b.len()
        invariant
            i <= a.len(),
            i <= b.len(),
            forall|j: int| 0 <= j < i ==> a@[j] == b@[j],
        decreases a.len() - i,
    {
        if a[i] < b[i] {
            proof {
                lemma_lex_skip(a@, b@, i as int);
            }
            return true;
        }
        if a[i] > b[i] {
            proof {
                lemma_lex_skip(a@, b@, i as int);
            }
            return false;
        }
        i = i + 1;
    }
    proof {
        lemma_lex_skip(a@, b@, i as int);
    }
    a.len() <= b.len()
}

/// Appends the bytes of `src` to `out`.
pub fn push_bytes(out: &mut Vec<u8>, src: &Vec<u8>)
    ensures
        final(out)@ == old(out)@ + src@,
{
    let mut i: usize = 0;
    while i < src.len()
        invariant
            i <= src.len(),
            out@ =~= old(out)@ + src@.subrange(0, i as int),
        decreases src.len() - i,
    {
        out.push(src[i]);
        i = i + 1;
    }
    proof {
        assert(out@ =~= old(out)@ + src@);
    }
}

/// Appends the decimal digits of `x` to `out`.
pub fn push_decimal(out: &mut Vec<u8>, x: u16)
    ensures
        final(out)@ == old(out)@ + dec_digits(x as nat),
    decreases x,
{
    if x >= 10 {
        push_decimal(out, x / 10);
    }
    out.push(48 + (x % 10) as u8);
    proof {
        assert(out@ =~= old(out)@ + dec_digits(x as nat));
    }
}

/// Appends `" has been destroyed by ant "` to `out`.
fn push_destroyed_by_label(out: &mut Vec<u8>)
    ensures
        final(out)@ == old(out)@ + destroyed_by_label(),
{
    out.push(32);
    out.push(104);
    out.push(97);
    out.push(115);
    out.push(32);
    out.push(98);
    out.push(101);
    out.push(101);
    out.push(110);
    out.push(32);
    out.push(100);
    out.push(101);
    out.push(115);
    out.push(116);
    out.push(114);
    out.push(111);
    out.push(121);
    out.push(101);
    out.push(100);
    out.push(32);
    out.push(98);
    out.push(121);
    out.push(32);
    out.push(97);
    out.push(110);
    out.push(116);
    out.push(32);
    proof {
        assert(out@ =~= old(out)@ + destroyed_by_label());
    }
}

/// Appends `" and ant "` to `out`.
fn push_and_ant_label(out: &mut Vec<u8>)
    ensures
        final(out)@ == old(out)@ + and_ant_label(),
{
    out.push(32);
    out.push(97);
    out.push(110);
    out.push(100);
    out.push(32);
    out.push(97);
    out.push(110);
    out.push(116);
    out.push(32);
    proof {
        assert(out@ =~= old(out)@ + and_ant_label());
    }
}

/// Appends the link fragment for direction `d` to `out`.
pub fn push_dir_label(out: &mut Vec<u8>, d: crate::types::Direction)
    ensures
        final(out)@ == old(out)@ + dir_label(d),
{
    match d {
        crate::types::Direction::North => {
            out.push(32);
            out.push(110);
            out.push(111);
            out.push(114);
            out.push(116);
            out.push(104);
            out.push(61);
        },
        crate::types::Direction::South => {
            out.push(32);
            out.push(115);
            out.push(111);
            out.push(117);
            out.push(116);
            out.push(104);
            out.push(61);
        },
        crate::types::Direction::East => {
            out.push(32);
            out.push(101);
            out.push(97);
            out.push(115);
            out.push(116);
            out.push(61);
        },
        crate::types::Direction::West => {
            out.push(32);
            out.push(119);
            out.push(101);
            out.push(115);
            out.push(116);
            out.push(61);
        },
    }
    proof {
        assert(out@ =~= old(out)@ + dir_label(d));
    }
}

/// The destruction message naming the colony and the two agents.
pub fn destruction_message(name: &Vec<u8>, a: u16, b: u16) -> (r: Vec<u8>)
    ensures
        r@ == destruction_line(name@, a, b),
{
    let mut r: Vec<u8> = Vec::new();
    push_bytes(&mut r, name);
    push_destroyed_by_label(&mut r);
    push_decimal(&mut r, a);
    push_and_ant_label(&mut r);
    push_decimal(&mut r, b);
    r.push(33);
    proof {
        assert(r@ =~= destruction_line(name@, a, b));
    }
    r
}

} // verus!
