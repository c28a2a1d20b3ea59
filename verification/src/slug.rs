//! The slug codec. A slug is the URL-safe token that holds a saved search
//! together with the caller's credentials; it is the sole persistent
//! representation of a feed, so decoding must reproduce the encoded fields
//! exactly, and nothing else may decode successfully.
//!
//! The five fields are serialized to a canonical byte form (fields joined by
//! a separator, with separator and escape bytes escaped), then passed through
//! a URL-safe base64 transform. Note the documented trade-off: the token
//! carries the credentials in recoverable form, so a feed URL is independently
//! re-servable by any process holding it; decoded credentials must still pass
//! the credential gate before they are trusted.
use vstd::prelude::*;

use crate::types::{Credentials, SearchRequest};

verus! {

use vstd::string::{StrSliceExecFns, StringSliceAdditionalSpecFns};
use vstd::utf8::{encode_utf8, encode_utf8_decode_utf8, encode_utf8_valid_utf8, valid_utf8};

/// Separator between serialized fields (the byte `:`).
pub const SEP: u8 = 58;

/// Escape byte (the byte `\`).
pub const ESC: u8 = 92;

/// Escaped form of the separator: `ESC` followed by this byte.
pub const CODE_SEP: u8 = 49;

/// Escaped form of the escape byte: `ESC` followed by this byte.
pub const CODE_ESC: u8 = 50;

/// How a single byte is escaped: `SEP` and `ESC` become two-byte escape
/// sequences, every other byte stands for itself.
pub open spec fn esc_byte(x: u8) -> Seq<u8> {
    if x == SEP {
        seq![ESC, CODE_SEP]
    } else if x == ESC {
        seq![ESC, CODE_ESC]
    } else {
        seq![x]
    }
}

/// The escaped form of a field.
pub open spec fn esc(f: Seq<u8>) -> Seq<u8>
    decreases f.len(),
{
    if f.len() == 0 {
        Seq::empty()
    } else {
        esc_byte(f[0]) + esc(f.drop_first())
    }
}

/// The canonical serialized form of the five slug fields.
pub open spec fn ser_fields(f1: Seq<u8>, f2: Seq<u8>, f3: Seq<u8>, f4: Seq<u8>, f5: Seq<u8>) -> Seq<
    u8,
> {
    esc(f1) + seq![SEP] + esc(f2) + seq![SEP] + esc(f3) + seq![SEP] + esc(f4) + seq![SEP] + esc(f5)
}

pub proof fn lemma_esc_concat(a: Seq<u8>, b: Seq<u8>)
    ensures
        esc(a + b) == esc(a) + esc(b),
    decreases a.len(),
{
    if a.len() == 0 {
        assert(a + b =~= b);
        assert(esc(a) + esc(b) =~= esc(b));
    } else {
        assert((a + b).drop_first() =~= a.drop_first() + b);
        lemma_esc_concat(a.drop_first(), b);
        assert(esc(a + b) =~= esc(a) + esc(b));
    }
}

/// No escaped field contains the separator byte.
pub proof fn lemma_esc_sep_free(f: Seq<u8>)
    ensures
        forall|i: int| 0 <= i < esc(f).len() ==> esc(f)[i] != SEP,
    decreases f.len(),
{
    if f.len() != 0 {
        lemma_esc_sep_free(f.drop_first());
        assert forall|i: int| 0 <= i < esc(f).len() implies esc(f)[i] != SEP by {
            if i < esc_byte(f[0]).len() {
                assert(esc(f)[i] == esc_byte(f[0])[i]);
            } else {
                assert(esc(f)[i] == esc(f.drop_first())[i - esc_byte(f[0]).len()]);
            }
        }
    }
}

/// If `esc(g)` extends `esc(a)`, then `g` extends `a` and the tail of the
/// escape is the escape of the tail.
pub proof fn lemma_esc_prefix(g: Seq<u8>, a: Seq<u8>, rest: Seq<u8>)
    requires
        esc(g) == esc(a) + rest,
    ensures
        a.len() <= g.len(),
        g.take(a.len() as int) == a,
        esc(g.skip(a.len() as int)) == rest,
    decreases a.len(),
{
    if a.len() == 0 {
        assert(g.take(0) =~= a);
        assert(g.skip(0) =~= g);
        assert(esc(a) + rest =~= rest);
    } else {
        assert(esc(a) == esc_byte(a[0]) + esc(a.drop_first())) by {
            assert(esc(a) =~= esc_byte(a[0]) + esc(a.drop_first()));
        }
        if g.len() == 0 {
            assert(esc(g).len() == 0);
            assert(esc(a).len() >= esc_byte(a[0]).len());
            assert(false);
        }
        assert(esc(g) == esc_byte(g[0]) + esc(g.drop_first()));
        // The heads agree.
        assert(g[0] == a[0]) by {
            let eg = esc_byte(g[0]);
            let ea = esc_byte(a[0]);
            assert(esc(g)[0] == eg[0]);
            assert(esc(g)[0] == ea[0]) by {
                assert(esc(g) == esc(a) + rest);
                assert((esc(a) + rest)[0] == esc(a)[0]);
            }
            if a[0] == SEP || a[0] == ESC {
                assert(ea[0] == ESC);
                assert(eg[0] == ESC);
                // so g[0] is SEP or ESC as well; the code byte decides which
                assert(g[0] == SEP || g[0] == ESC);
                assert(esc(g)[1] == eg[1]);
                assert(esc(g)[1] == ea[1]) by {
                    assert(esc(a).len() >= 2);
                    assert((esc(a) + rest)[1] == esc(a)[1]);
                }
            } else {
                assert(ea[0] == a[0]);
                if g[0] == SEP || g[0] == ESC {
                    assert(eg[0] == ESC);
                    assert(false);
                }
            }
        }
        // Cancel the shared head and recurse.
        let hl = esc_byte(a[0]).len();
        assert(esc(g.drop_first()) =~= esc(a.drop_first()) + rest) by {
            assert(esc(g).skip(hl as int) =~= esc(g.drop_first()));
            assert(esc(g).skip(hl as int) =~= esc(a.drop_first()) + rest);
        }
        lemma_esc_prefix(g.drop_first(), a.drop_first(), rest);
        assert(g.drop_first().take(a.drop_first().len() as int) == a.drop_first());
        assert forall|i: int| 0 <= i < a.len() implies g.take(a.len() as int)[i] == a[i] by {
            if i > 0 {
                assert(a[i] == a.drop_first()[i - 1]);
                let j = i - 1;
                assert(g.drop_first().take(a.drop_first().len() as int)[j] == a.drop_first()[j]);
                assert(g[i] == g.drop_first()[i - 1]);
            }
        }
        assert(g.take(a.len() as int) =~= a);
        assert(g.skip(a.len() as int) =~= g.drop_first().skip(a.len() - 1));
    }
}

/// Escaping is injective.
pub proof fn lemma_esc_injective(g: Seq<u8>, a: Seq<u8>)
    requires
        esc(g) == esc(a),
    ensures
        g == a,
{
    assert(esc(g) == esc(a) + Seq::<u8>::empty()) by {
        assert(esc(a) + Seq::<u8>::empty() =~= esc(a));
    }
    lemma_esc_prefix(g, a, Seq::empty());
    let g2 = g.skip(a.len() as int);
    if g2.len() != 0 {
        assert(esc(g2).len() >= esc_byte(g2[0]).len());
        assert(false);
    }
    assert(g =~= g.take(a.len() as int));
}

/// The canonical serialized form determines the five fields.
pub proof fn lemma_ser_fields_injective(
    f1: Seq<u8>,
    f2: Seq<u8>,
    f3: Seq<u8>,
    f4: Seq<u8>,
    f5: Seq<u8>,
    g1: Seq<u8>,
    g2: Seq<u8>,
    g3: Seq<u8>,
    g4: Seq<u8>,
    g5: Seq<u8>,
)
    requires
        ser_fields(f1, f2, f3, f4, f5) == ser_fields(g1, g2, g3, g4, g5),
    ensures
        f1 == g1,
        f2 == g2,
        f3 == g3,
        f4 == g4,
        f5 == g5,
{
    let b = ser_fields(f1, f2, f3, f4, f5);
    lemma_ser_fields_structure(f1, f2, f3, f4, f5);
    lemma_ser_fields_structure(g1, g2, g3, g4, g5);
    lemma_field_at_unique(b, 0, f1, g1);
    lemma_field_at_unique(b, (esc(f1).len() + 1) as int, f2, g2);
    lemma_field_at_unique(b, (esc(f1).len() + esc(f2).len() + 2) as int, f3, g3);
    lemma_field_at_unique(b, (esc(f1).len() + esc(f2).len() + esc(f3).len() + 3) as int, f4, g4);
    lemma_field_at_unique(
        b,
        (esc(f1).len() + esc(f2).len() + esc(f3).len() + esc(f4).len() + 4) as int,
        f5,
        g5,
    );
}

/// `g` is serialized at position `start` of `b`, ending at the end of `b` or
/// at a separator.
pub open spec fn is_field_at(b: Seq<u8>, start: int, g: Seq<u8>) -> bool {
    &&& 0 <= start
    &&& start + esc(g).len() <= b.len()
    &&& b.subrange(start, start + esc(g).len()) == esc(g)
    &&& (start + esc(g).len() == b.len() || b[start + esc(g).len()] == SEP)
}

/// At a given position there is at most one field.
pub proof fn lemma_field_at_unique(b: Seq<u8>, start: int, f: Seq<u8>, g: Seq<u8>)
    requires
        is_field_at(b, start, f),
        is_field_at(b, start, g),
    ensures
        f == g,
{
    let lf = esc(f).len() as int;
    let lg = esc(g).len() as int;
    if lf < lg {
        // position start + lf inside esc(g) would be a separator
        lemma_esc_sep_free(g);
        if start + lf == b.len() {
            assert(false);
        } else {
            assert(b[start + lf] == SEP);
            assert(esc(g)[lf] == b.subrange(start, start + lg)[lf]);
            assert(false);
        }
    } else if lg < lf {
        lemma_esc_sep_free(f);
        if start + lg == b.len() {
            assert(false);
        } else {
            assert(b[start + lg] == SEP);
            assert(esc(f)[lg] == b.subrange(start, start + lf)[lg]);
            assert(false);
        }
    } else {
        assert(esc(f) == esc(g));
        lemma_esc_injective(f, g);
    }
}

/// In a serialized image, each of the five fields sits at its canonical
/// position. A broadcast lemma, so wherever a serialization term appears —
/// in particular while proving that a failed parse means the bytes are no
/// serialized image — these facts are at hand.
pub broadcast proof fn lemma_ser_fields_structure(
    g1: Seq<u8>,
    g2: Seq<u8>,
    g3: Seq<u8>,
    g4: Seq<u8>,
    g5: Seq<u8>,
)
    ensures
        (#[trigger] ser_fields(g1, g2, g3, g4, g5)).len() == esc(g1).len() + esc(g2).len()
            + esc(g3).len() + esc(g4).len() + esc(g5).len() + 4,
        is_field_at(ser_fields(g1, g2, g3, g4, g5), 0, g1),
        is_field_at(ser_fields(g1, g2, g3, g4, g5), (esc(g1).len() + 1) as int, g2),
        is_field_at(ser_fields(g1, g2, g3, g4, g5), (esc(g1).len() + esc(g2).len() + 2) as int, g3),
        is_field_at(
            ser_fields(g1, g2, g3, g4, g5),
            (esc(g1).len() + esc(g2).len() + esc(g3).len() + 3) as int,
            g4,
        ),
        is_field_at(
            ser_fields(g1, g2, g3, g4, g5),
            (esc(g1).len() + esc(g2).len() + esc(g3).len() + esc(g4).len() + 4) as int,
            g5,
        ),
{
    let b = ser_fields(g1, g2, g3, g4, g5);
    let l1 = esc(g1).len() as int;
    let l2 = esc(g2).len() as int;
    let l3 = esc(g3).len() as int;
    let l4 = esc(g4).len() as int;
    let l5 = esc(g5).len() as int;
    assert(b.subrange(0, l1) =~= esc(g1));
    assert(b[l1] == SEP);
    assert(b.subrange(l1 + 1, l1 + 1 + l2) =~= esc(g2));
    assert(b[l1 + l2 + 1] == SEP);
    assert(b.subrange(l1 + l2 + 2, l1 + l2 + 2 + l3) =~= esc(g3));
    assert(b[l1 + l2 + l3 + 2] == SEP);
    assert(b.subrange(l1 + l2 + l3 + 3, l1 + l2 + l3 + 3 + l4) =~= esc(g4));
    assert(b[l1 + l2 + l3 + l4 + 3] == SEP);
    assert(b.subrange(l1 + l2 + l3 + l4 + 4, l1 + l2 + l3 + l4 + 4 + l5) =~= esc(g5));
}

/// Shared reasoning for the scanner: once it stops at the end of the input or
/// at a separator, with `esc(acc)` matching what it has read, the field at
/// `start` (if any) is exactly `acc`.
proof fn lemma_unescape_complete(b: Seq<u8>, start: int, i: int, acc: Seq<u8>, g: Seq<u8>)
    requires
        0 <= start <= i <= b.len(),
        b.subrange(start, i) == esc(acc),
        i == b.len() || b[i] == SEP,
        is_field_at(b, start, g),
    ensures
        acc == g,
        i == start + esc(g).len(),
{
    let gl = esc(g).len();
    lemma_esc_sep_free(acc);
    if i > start + gl {
        if start + gl == b.len() {
            assert(false);
        } else {
            assert(b[start + gl] == SEP);
            assert(esc(acc)[start + gl - start] == b.subrange(start, i)[start + gl - start]);
            assert(false);
        }
    }
    assert(b.subrange(start, start + gl) =~= b.subrange(start, i) + b.subrange(i, start + gl));
    let tail = b.subrange(i, start + gl);
    assert(esc(g) == esc(acc) + tail);
    lemma_esc_prefix(g, acc, tail);
    let g2 = g.skip(acc.len() as int);
    if i < start + gl {
        assert(b[i] == SEP);
        if g2.len() == 0 {
            assert(esc(g2).len() == 0);
            assert(false);
        }
        assert(esc(g2) == esc_byte(g2[0]) + esc(g2.drop_first()));
        assert(esc(g2)[0] == esc_byte(g2[0])[0]);
        assert(esc(g2)[0] == tail[0]);
        assert(tail[0] == b[i]);
        assert(esc_byte(g2[0])[0] != SEP);
        assert(false);
    }
    assert(esc(acc) == esc(g));
    lemma_esc_injective(acc, g);
}

/// Shared reasoning for the scanner's failure cases: a dangling or invalid
/// escape sequence means no field is serialized at `start`.
proof fn lemma_unescape_fail(b: Seq<u8>, start: int, i: int, acc: Seq<u8>, g: Seq<u8>)
    requires
        0 <= start <= i < b.len(),
        b.subrange(start, i) == esc(acc),
        b[i] == ESC,
        i + 1 == b.len() || (b[i + 1] != CODE_SEP && b[i + 1] != CODE_ESC),
    ensures
        !is_field_at(b, start, g),
{
    if is_field_at(b, start, g) {
        let gl = esc(g).len();
    lemma_esc_sep_free(acc);
    if i > start + gl {
        if start + gl == b.len() {
            assert(false);
        } else {
            assert(b[start + gl] == SEP);
            assert(esc(acc)[start + gl - start] == b.subrange(start, i)[start + gl - start]);
            assert(false);
        }
    }
    if i == start + gl {
        // the terminator there is a separator or the end, but we see ESC
        assert(false);
    }
    assert(b.subrange(start, start + gl) =~= b.subrange(start, i) + b.subrange(i, start + gl));
    let tail = b.subrange(i, start + gl);
    assert(esc(g) == esc(acc) + tail);
    lemma_esc_prefix(g, acc, tail);
    let g2 = g.skip(acc.len() as int);
    if g2.len() == 0 {
        assert(esc(g2).len() == 0);
        assert(false);
    }
    assert(esc(g2) == esc_byte(g2[0]) + esc(g2.drop_first()));
    assert(esc(g2)[0] == tail[0]);
    assert(tail[0] == b[i]);
    // the head byte of the tail is ESC, so g2's first byte is escaped
    assert(g2[0] == SEP || g2[0] == ESC) by {
        if g2[0] != SEP && g2[0] != ESC {
            assert(esc_byte(g2[0])[0] == g2[0]);
            assert(g2[0] == ESC);
        }
    }
    assert(esc_byte(g2[0]).len() == 2);
    assert(i + 2 <= start + gl);
    assert(esc(g2)[1] == esc_byte(g2[0])[1]);
        assert(esc(g2)[1] == tail[1]);
        assert(tail[1] == b[i + 1]);
        assert(b[i + 1] == CODE_SEP || b[i + 1] == CODE_ESC);
        assert(false);
    }
}

/// Appends the escaped form of `f` to `out`.
fn escape_push(out: &mut Vec<u8>, f: &Vec<u8>)
    ensures
        final(out)@ == old(out)@ + esc(f@),
{
    let ghost base = out@;
    let mut k: usize = 0;
    while k < f.len()
        invariant
            k <= f@.len(),
            out@ == base + esc(f@.take(k as int)),
        decreases f@.len() - k,
    {
        let x = f[k];
        if x == SEP {
            out.push(ESC);
            out.push(CODE_SEP);
        } else if x == ESC {
            out.push(ESC);
            out.push(CODE_ESC);
        } else {
            out.push(x);
        }
        proof {
            let pre = f@.take(k as int);
            let one = seq![f@[k as int]];
            lemma_esc_concat(pre, one);
            assert(one.drop_first() =~= Seq::<u8>::empty());
            assert(esc(Seq::<u8>::empty()) == Seq::<u8>::empty());
            assert(esc(one) == esc_byte(one[0]) + esc(one.drop_first()));
            assert(esc(one) =~= esc_byte(f@[k as int]));
            assert(f@.take(k as int + 1) =~= pre + one);
            assert(esc(f@.take(k as int + 1)) == esc(pre) + esc(one));
            assert(out@ =~= base + esc(f@.take(k as int + 1)));
        }
        k = k + 1;
    }
    proof {
        assert(f@.take(f@.len() as int) =~= f@);
    }
}

/// Serializes the five fields into the canonical byte form.
fn serialize_fields(f1: &Vec<u8>, f2: &Vec<u8>, f3: &Vec<u8>, f4: &Vec<u8>, f5: &Vec<u8>) -> (out:
    Vec<u8>)
    ensures
        out@ == ser_fields(f1@, f2@, f3@, f4@, f5@),
{
    let mut out: Vec<u8> = Vec::new();
    escape_push(&mut out, f1);
    out.push(SEP);
    escape_push(&mut out, f2);
    out.push(SEP);
    escape_push(&mut out, f3);
    out.push(SEP);
    escape_push(&mut out, f4);
    out.push(SEP);
    escape_push(&mut out, f5);
    proof {
        assert(out@ =~= ser_fields(f1@, f2@, f3@, f4@, f5@));
    }
    out
}

/// Reads one unescaped field starting at `start`, stopping at the end of the
/// input or at a separator. Returns the field and the stop position.
fn unescape_field(b: &Vec<u8>, start: usize) -> (r: Option<(Vec<u8>, usize)>)
    requires
        start <= b@.len(),
    ensures
        r matches Some(p) ==> {
            &&& start <= p.1 <= b@.len()
            &&& b@.subrange(start as int, p.1 as int) == esc(p.0@)
            &&& (p.1 == b@.len() || b@[p.1 as int] == SEP)
        },
        forall|g: Seq<u8>|
            is_field_at(b@, start as int, g) ==> (r matches Some(p) && p.0@ == g && p.1 == start
                + esc(g).len()),
{
    let mut acc: Vec<u8> = Vec::new();
    let mut i: usize = start;
    loop
        invariant
            start <= i <= b@.len(),
            b@.subrange(start as int, i as int) == esc(acc@),
        decreases b@.len() - i,
    {
        if i == b.len() {
            proof {
                assert forall|g: Seq<u8>| is_field_at(b@, start as int, g) implies (acc@ == g && i
                    == start + esc(g).len()) by {
                    lemma_unescape_complete(b@, start as int, i as int, acc@, g);
                }
            }
            return Some((acc, i));
        }
        let x = b[i];
        if x == SEP {
            proof {
                assert forall|g: Seq<u8>| is_field_at(b@, start as int, g) implies (acc@ == g && i
                    == start + esc(g).len()) by {
                    lemma_unescape_complete(b@, start as int, i as int, acc@, g);
                }
            }
            return Some((acc, i));
        }
        if x == ESC {
            if i + 1 == b.len() {
                proof {
                    assert forall|g: Seq<u8>| !is_field_at(b@, start as int, g) by {
                        lemma_unescape_fail(b@, start as int, i as int, acc@, g);
                    }
                }
                return None;
            }
            let c = b[i + 1];
            let ghost acc0 = acc@;
            if c == CODE_SEP {
                acc.push(SEP);
            } else if c == CODE_ESC {
                acc.push(ESC);
            } else {
                proof {
                    assert forall|g: Seq<u8>| !is_field_at(b@, start as int, g) by {
                        lemma_unescape_fail(b@, start as int, i as int, acc@, g);
                    }
                }
                return None;
            }
            proof {
                let y = acc@[acc@.len() - 1];
                let one = seq![y];
                lemma_esc_concat(acc0, one);
                assert(one.drop_first() =~= Seq::<u8>::empty());
                assert(esc(Seq::<u8>::empty()) == Seq::<u8>::empty());
                assert(esc(one) == esc_byte(one[0]) + esc(one.drop_first()));
                assert(esc(one) =~= esc_byte(y));
                assert(acc@ =~= acc0 + one);
                assert(esc(acc@) == esc(acc0) + esc_byte(y));
                assert(esc_byte(y) =~= seq![b@[i as int], b@[i as int + 1]]);
                assert(b@.subrange(start as int, i as int + 2) =~= b@.subrange(
                    start as int,
                    i as int,
                ) + seq![b@[i as int], b@[i as int + 1]]);
                assert(b@.subrange(start as int, i as int + 2) =~= esc(acc@));
            }
            i = i + 2;
        } else {
            let ghost acc0 = acc@;
            acc.push(x);
            proof {
                let one = seq![x];
                lemma_esc_concat(acc0, one);
                assert(one.drop_first() =~= Seq::<u8>::empty());
                assert(esc(Seq::<u8>::empty()) == Seq::<u8>::empty());
                assert(esc(one) == esc_byte(one[0]) + esc(one.drop_first()));
                assert(esc(one) =~= esc_byte(x));
                assert(acc@ =~= acc0 + one);
                assert(esc(acc@) == esc(acc0) + esc_byte(x));
                assert(esc_byte(x) =~= seq![x]);
                assert(b@.subrange(start as int, i as int + 1) =~= b@.subrange(
                    start as int,
                    i as int,
                ) + seq![x]);
                assert(b@.subrange(start as int, i as int + 1) =~= esc(acc@));
            }
            i = i + 1;
        }
    }
}


/// Five fields read back at consecutive positions, separated by the
/// separator byte and ending at the end of the input, assemble to the
/// serialized image.
proof fn lemma_fields_assemble(
    b: Seq<u8>,
    f1: Seq<u8>,
    f2: Seq<u8>,
    f3: Seq<u8>,
    f4: Seq<u8>,
    f5: Seq<u8>,
    e1: int,
    e2: int,
    e3: int,
    e4: int,
)
    requires
        0 <= e1 < b.len(),
        e1 < e2 < b.len(),
        e2 < e3 < b.len(),
        e3 < e4 < b.len(),
        b.subrange(0, e1) == esc(f1),
        b[e1] == SEP,
        b.subrange(e1 + 1, e2) == esc(f2),
        b[e2] == SEP,
        b.subrange(e2 + 1, e3) == esc(f3),
        b[e3] == SEP,
        b.subrange(e3 + 1, e4) == esc(f4),
        b[e4] == SEP,
        b.subrange(e4 + 1, b.len() as int) == esc(f5),
    ensures
        b == ser_fields(f1, f2, f3, f4, f5),
{
    assert(b =~= ser_fields(f1, f2, f3, f4, f5));
}

/// Parses the canonical byte form back into the five fields. Succeeds exactly
/// on serialized images, and only on the canonical serialization of the
/// fields it returns.
#[verifier::rlimit(100)]
#[verifier::spinoff_prover]
fn parse_fields(b: &Vec<u8>) -> (r: Option<(Vec<u8>, Vec<u8>, Vec<u8>, Vec<u8>, Vec<u8>)>)
    ensures
        r matches Some(fs) ==> b@ == ser_fields(fs.0@, fs.1@, fs.2@, fs.3@, fs.4@),
        forall|g1: Seq<u8>, g2: Seq<u8>, g3: Seq<u8>, g4: Seq<u8>, g5: Seq<u8>|
            b@ == ser_fields(g1, g2, g3, g4, g5) ==> (r matches Some(fs) && fs.0@ == g1 && fs.1@
                == g2 && fs.2@ == g3 && fs.3@ == g4 && fs.4@ == g5),
{
    broadcast use lemma_ser_fields_structure;

    let r1 = unescape_field(b, 0);
    let (f1, e1) = match r1 {
        Some(p) => p,
        None => {
            return None;
        },
    };
    if e1 == b.len() {
        return None;
    }
    let r2 = unescape_field(b, e1 + 1);
    let (f2, e2) = match r2 {
        Some(p) => p,
        None => {
            return None;
        },
    };
    if e2 == b.len() {
        return None;
    }
    let r3 = unescape_field(b, e2 + 1);
    let (f3, e3) = match r3 {
        Some(p) => p,
        None => {
            return None;
        },
    };
    if e3 == b.len() {
        return None;
    }
    let r4 = unescape_field(b, e3 + 1);
    let (f4, e4) = match r4 {
        Some(p) => p,
        None => {
            return None;
        },
    };
    if e4 == b.len() {
        return None;
    }
    let r5 = unescape_field(b, e4 + 1);
    let (f5, e5) = match r5 {
        Some(p) => p,
        None => {
            return None;
        },
    };
    if e5 != b.len() {
        return None;
    }
    proof {
        lemma_fields_assemble(
            b@,
            f1@,
            f2@,
            f3@,
            f4@,
            f5@,
            e1 as int,
            e2 as int,
            e3 as int,
            e4 as int,
        );
        assert forall|g1: Seq<u8>, g2: Seq<u8>, g3: Seq<u8>, g4: Seq<u8>, g5: Seq<u8>| b@
            == ser_fields(g1, g2, g3, g4, g5) implies (f1@ == g1 && f2@ == g2 && f3@ == g3 && f4@
            == g4 && f5@ == g5) by {
            lemma_ser_fields_injective(f1@, f2@, f3@, f4@, f5@, g1, g2, g3, g4, g5);
        }
    }
    Some((f1, f2, f3, f4, f5))
}

/// Decoding failure: the token is not a canonical slug. No detail is leaked,
/// matching the uniform "malformed" treatment at the boundary.
#[derive(Clone, Copy, Debug, PartialEq, Eq)]
pub enum SlugError {
    Malformed,
}

/// The canonical byte form of the five slug fields, given as character
/// sequences.
pub open spec fn slug_bytes(
    author: Seq<char>,
    search: Seq<char>,
    title: Seq<char>,
    user: Seq<char>,
    pass: Seq<char>,
) -> Seq<u8> {
    ser_fields(
        encode_utf8(author),
        encode_utf8(search),
        encode_utf8(title),
        encode_utf8(user),
        encode_utf8(pass),
    )
}

/// The slug text for the five fields: the URL-safe transform of the
/// canonical byte form.
pub open spec fn slug_of(
    author: Seq<char>,
    search: Seq<char>,
    title: Seq<char>,
    user: Seq<char>,
    pass: Seq<char>,
) -> Seq<char> {
    b64_of(slug_bytes(author, search, title, user, pass))
}

/// What `base64_url::encode` returns for a given byte sequence.
pub uninterp spec fn b64_of(bytes: Seq<u8>) -> Seq<char>;

/// A character of the URL-safe base64 alphabet: letters, digits, `-`, `_`.
pub open spec fn is_url_safe_char(c: char) -> bool {
    let u = c as int;
    ||| ('A' as int) <= u <= ('Z' as int)
    ||| ('a' as int) <= u <= ('z' as int)
    ||| ('0' as int) <= u <= ('9' as int)
    ||| c == '-'
    ||| c == '_'
}

/// The text holds only URL-safe base64 characters, so it stands in a URL
/// path segment without escaping: no `/`, no `+`, no `=` padding.
pub open spec fn url_safe_chars(s: Seq<char>) -> bool {
    forall|i: int| 0 <= i < s.len() ==> is_url_safe_char(s[i])
}

/// Relies on `base64_url::encode`: URL-safe base64 without padding, over
/// the alphabet `A`–`Z`, `a`–`z`, `0`–`9`, `-`, `_`; the result is a
/// function of the input bytes alone.
#[verifier::external_body]
fn b64_encode(bytes: &Vec<u8>) -> (r: String)
    ensures
        r@ == b64_of(bytes@),
        url_safe_chars(r@),
{
    base64_url::encode(bytes.as_slice())
}

/// Relies on `base64_url::decode`: it inverts `base64_url::encode`, so on
/// the encoding of any byte sequence it succeeds and returns exactly those
/// bytes.
#[verifier::external_body]
fn b64_decode(s: &str) -> (r: Option<Vec<u8>>)
    ensures
        r is Some ==> forall|b: Seq<u8>| b64_of(b) == s@ ==> (r matches Some(v) && v@ == b),
        r is None ==> forall|b: Seq<u8>| b64_of(b) != s@,
{
    match base64_url::decode(s) {
        Ok(v) => Some(v),
        Err(_) => None,
    }
}

/// Relies on `String::from_utf8`: it succeeds exactly on valid UTF-8 input
/// and returns the string whose UTF-8 encoding is that input.
#[verifier::external_body]
fn string_of_utf8(bytes: Vec<u8>) -> (r: Option<String>)
    ensures
        r matches Some(x) ==> bytes@ == encode_utf8(x@),
        r is None ==> !valid_utf8(bytes@),
{
    match String::from_utf8(bytes) {
        Ok(x) => Some(x),
        Err(_) => None,
    }
}

/// Serializes a search request and the caller's credentials into the slug
/// text that names the feed.
pub fn encode_slug(req: &SearchRequest, creds: &Credentials) -> (s: String)
    ensures
        s@ == slug_of(req.author@, req.search@, req.title@, creds.user@, creds.pass@),
        url_safe_chars(s@),
{
    let f1 = req.author.as_str().as_bytes_vec();
    let f2 = req.search.as_str().as_bytes_vec();
    let f3 = req.title.as_str().as_bytes_vec();
    let f4 = creds.user.as_str().as_bytes_vec();
    let f5 = creds.pass.as_str().as_bytes_vec();
    let ser = serialize_fields(&f1, &f2, &f3, &f4, &f5);
    b64_encode(&ser)
}

/// Decodes a slug back into the search request and credentials it was made
/// from. Succeeds exactly on the slugs that `encode_slug` produces, and only
/// with the original field values; everything else is uniformly malformed.
/// The credentials that come out are a carrier, not a trust boundary: they
/// must still pass the credential gate.
pub fn decode_slug(s: &str) -> (r: Result<(SearchRequest, Credentials), SlugError>)
    ensures
        r matches Ok(p) ==> s@ == slug_of(
            p.0.author@,
            p.0.search@,
            p.0.title@,
            p.1.user@,
            p.1.pass@,
        ),
        forall|a: Seq<char>, q: Seq<char>, t: Seq<char>, u: Seq<char>, w: Seq<char>|
            s@ == slug_of(a, q, t, u, w) ==> (r matches Ok(p) && p.0.author@ == a && p.0.search@
                == q && p.0.title@ == t && p.1.user@ == u && p.1.pass@ == w),
{
    let bytes = match b64_decode(s) {
        Some(v) => v,
        None => {
            proof {
                assert forall|a: Seq<char>, q: Seq<char>, t: Seq<char>, u: Seq<char>, w: Seq<char>|
                    s@ != slug_of(a, q, t, u, w) by {
                    if s@ == slug_of(a, q, t, u, w) {
                        assert(b64_of(slug_bytes(a, q, t, u, w)) == s@);
                    }
                }
            }
            return Err(SlugError::Malformed);
        },
    };
    let parsed = match parse_fields(&bytes) {
        Some(fs) => fs,
        None => {
            proof {
                assert forall|a: Seq<char>, q: Seq<char>, t: Seq<char>, u: Seq<char>, w: Seq<char>|
                    s@ != slug_of(a, q, t, u, w) by {
                    if s@ == slug_of(a, q, t, u, w) {
                        assert(b64_of(slug_bytes(a, q, t, u, w)) == s@);
                        assert(bytes@ == slug_bytes(a, q, t, u, w));
                        assert(bytes@ == ser_fields(
                            encode_utf8(a),
                            encode_utf8(q),
                            encode_utf8(t),
                            encode_utf8(u),
                            encode_utf8(w),
                        ));
                    }
                }
            }
            return Err(SlugError::Malformed);
        },
    };
    let (b1, b2, b3, b4, b5) = parsed;
    let s1 = match string_of_utf8(b1) {
        Some(x) => x,
        None => {
            proof {
                assert forall|a: Seq<char>, q: Seq<char>, t: Seq<char>, u: Seq<char>, w: Seq<char>|
                    s@ != slug_of(a, q, t, u, w) by {
                    if s@ == slug_of(a, q, t, u, w) {
                        assert(b64_of(slug_bytes(a, q, t, u, w)) == s@);
                        assert(bytes@ == ser_fields(
                            encode_utf8(a),
                            encode_utf8(q),
                            encode_utf8(t),
                            encode_utf8(u),
                            encode_utf8(w),
                        ));
                        encode_utf8_valid_utf8(a);
                    }
                }
            }
            return Err(SlugError::Malformed);
        },
    };
    let s2 = match string_of_utf8(b2) {
        Some(x) => x,
        None => {
            proof {
                assert forall|a: Seq<char>, q: Seq<char>, t: Seq<char>, u: Seq<char>, w: Seq<char>|
                    s@ != slug_of(a, q, t, u, w) by {
                    if s@ == slug_of(a, q, t, u, w) {
                        assert(b64_of(slug_bytes(a, q, t, u, w)) == s@);
                        assert(bytes@ == ser_fields(
                            encode_utf8(a),
                            encode_utf8(q),
                            encode_utf8(t),
                            encode_utf8(u),
                            encode_utf8(w),
                        ));
                        encode_utf8_valid_utf8(q);
                    }
                }
            }
            return Err(SlugError::Malformed);
        },
    };
    let s3 = match string_of_utf8(b3) {
        Some(x) => x,
        None => {
            proof {
                assert forall|a: Seq<char>, q: Seq<char>, t: Seq<char>, u: Seq<char>, w: Seq<char>|
                    s@ != slug_of(a, q, t, u, w) by {
                    if s@ == slug_of(a, q, t, u, w) {
                        assert(b64_of(slug_bytes(a, q, t, u, w)) == s@);
                        assert(bytes@ == ser_fields(
                            encode_utf8(a),
                            encode_utf8(q),
                            encode_utf8(t),
                            encode_utf8(u),
                            encode_utf8(w),
                        ));
                        encode_utf8_valid_utf8(t);
                    }
                }
            }
            return Err(SlugError::Malformed);
        },
    };
    let s4 = match string_of_utf8(b4) {
        Some(x) => x,
        None => {
            proof {
                assert forall|a: Seq<char>, q: Seq<char>, t: Seq<char>, u: Seq<char>, w: Seq<char>|
                    s@ != slug_of(a, q, t, u, w) by {
                    if s@ == slug_of(a, q, t, u, w) {
                        assert(b64_of(slug_bytes(a, q, t, u, w)) == s@);
                        assert(bytes@ == ser_fields(
                            encode_utf8(a),
                            encode_utf8(q),
                            encode_utf8(t),
                            encode_utf8(u),
                            encode_utf8(w),
                        ));
                        encode_utf8_valid_utf8(u);
                    }
                }
            }
            return Err(SlugError::Malformed);
        },
    };
    let s5 = match string_of_utf8(b5) {
        Some(x) => x,
        None => {
            proof {
                assert forall|a: Seq<char>, q: Seq<char>, t: Seq<char>, u: Seq<char>, w: Seq<char>|
                    s@ != slug_of(a, q, t, u, w) by {
                    if s@ == slug_of(a, q, t, u, w) {
                        assert(b64_of(slug_bytes(a, q, t, u, w)) == s@);
                        assert(bytes@ == ser_fields(
                            encode_utf8(a),
                            encode_utf8(q),
                            encode_utf8(t),
                            encode_utf8(u),
                            encode_utf8(w),
                        ));
                        encode_utf8_valid_utf8(w);
                    }
                }
            }
            return Err(SlugError::Malformed);
        },
    };
    let req = SearchRequest { author: s1, search: s2, title: s3 };
    let creds = Credentials { user: s4, pass: s5 };
    let re = encode_slug(&req, &creds);
    let owned = s.to_owned();
    if re == owned {
        proof {
            assert forall|a: Seq<char>, q: Seq<char>, t: Seq<char>, u: Seq<char>, w: Seq<char>|
                s@ == slug_of(a, q, t, u, w) implies (req.author@ == a && req.search@ == q
                && req.title@ == t && creds.user@ == u && creds.pass@ == w) by {
                lemma_decoded_fields(s@, bytes@, req.author@, req.search@, req.title@, creds.user@,
                    creds.pass@, a, q, t, u, w);
            }
        }
        Ok((req, creds))
    } else {
        proof {
            assert forall|a: Seq<char>, q: Seq<char>, t: Seq<char>, u: Seq<char>, w: Seq<char>|
                s@ != slug_of(a, q, t, u, w) by {
                if s@ == slug_of(a, q, t, u, w) {
                    lemma_decoded_fields(s@, bytes@, req.author@, req.search@, req.title@,
                        creds.user@, creds.pass@, a, q, t, u, w);
                    assert(re@ == slug_of(a, q, t, u, w));
                }
            }
        }
        Err(SlugError::Malformed)
    }
}

/// If the bytes behind a slug image parse to UTF-8 encodings of the decoded
/// fields, those fields are exactly the encoded ones.
proof fn lemma_decoded_fields(
    s: Seq<char>,
    bytes: Seq<u8>,
    d1: Seq<char>,
    d2: Seq<char>,
    d3: Seq<char>,
    d4: Seq<char>,
    d5: Seq<char>,
    a: Seq<char>,
    q: Seq<char>,
    t: Seq<char>,
    u: Seq<char>,
    w: Seq<char>,
)
    requires
        s == slug_of(a, q, t, u, w),
        bytes == ser_fields(
            encode_utf8(d1),
            encode_utf8(d2),
            encode_utf8(d3),
            encode_utf8(d4),
            encode_utf8(d5),
        ),
        forall|b: Seq<u8>| b64_of(b) == s ==> b == bytes,
    ensures
        d1 == a,
        d2 == q,
        d3 == t,
        d4 == u,
        d5 == w,
{
    assert(b64_of(slug_bytes(a, q, t, u, w)) == s);
    assert(bytes == slug_bytes(a, q, t, u, w));
    lemma_ser_fields_injective(
        encode_utf8(d1),
        encode_utf8(d2),
        encode_utf8(d3),
        encode_utf8(d4),
        encode_utf8(d5),
        encode_utf8(a),
        encode_utf8(q),
        encode_utf8(t),
        encode_utf8(u),
        encode_utf8(w),
    );
    encode_utf8_decode_utf8(d1);
    encode_utf8_decode_utf8(d2);
    encode_utf8_decode_utf8(d3);
    encode_utf8_decode_utf8(d4);
    encode_utf8_decode_utf8(d5);
    encode_utf8_decode_utf8(a);
    encode_utf8_decode_utf8(q);
    encode_utf8_decode_utf8(t);
    encode_utf8_decode_utf8(u);
    encode_utf8_decode_utf8(w);
}


/// Two slugs over the same byte form carry the same five fields: the
/// canonical byte form, and with it the slug text, determines the search
/// request and the credentials. A tampered token therefore never decodes to
/// the fields of a different token.
pub proof fn lemma_slug_bytes_injective(
    a1: Seq<char>,
    q1: Seq<char>,
    t1: Seq<char>,
    u1: Seq<char>,
    w1: Seq<char>,
    a2: Seq<char>,
    q2: Seq<char>,
    t2: Seq<char>,
    u2: Seq<char>,
    w2: Seq<char>,
)
    requires
        slug_bytes(a1, q1, t1, u1, w1) == slug_bytes(a2, q2, t2, u2, w2),
    ensures
        a1 == a2,
        q1 == q2,
        t1 == t2,
        u1 == u2,
        w1 == w2,
{
    lemma_ser_fields_injective(
        encode_utf8(a1),
        encode_utf8(q1),
        encode_utf8(t1),
        encode_utf8(u1),
        encode_utf8(w1),
        encode_utf8(a2),
        encode_utf8(q2),
        encode_utf8(t2),
        encode_utf8(u2),
        encode_utf8(w2),
    );
    encode_utf8_decode_utf8(a1);
    encode_utf8_decode_utf8(q1);
    encode_utf8_decode_utf8(t1);
    encode_utf8_decode_utf8(u1);
    encode_utf8_decode_utf8(w1);
    encode_utf8_decode_utf8(a2);
    encode_utf8_decode_utf8(q2);
    encode_utf8_decode_utf8(t2);
    encode_utf8_decode_utf8(u2);
    encode_utf8_decode_utf8(w2);
}

} // verus!
