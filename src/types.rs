//! Conversions between Rust values and elements of universal type.
use vstd::prelude::*;

use crate::tag::{tags_view, Class, Payload, PayloadView, Tag, TagView, UniversalTypes};
use crate::wire::{be_value, encode_all, pow256};

verus! {

/// The `w` low-order octets of `n`, most significant first.
pub open spec fn fixed_be(n: nat, w: nat) -> Seq<u8>
    decreases w,
{
    if w == 0 {
        seq![]
    } else {
        fixed_be(n / 256, (w - 1) as nat).push((n % 256) as u8)
    }
}

/// `v` in two's complement over `w` octets, as an unsigned number.
pub open spec fn twos_complement(v: int, w: nat) -> nat {
    if v < 0 {
        (v + pow256(w)) as nat
    } else {
        v as nat
    }
}

/// The octets of `v` in two's complement over `w` octets, most significant first.
pub open spec fn int_octets(v: int, w: nat) -> Seq<u8> {
    fixed_be(twos_complement(v, w), w)
}

/// The value of big-endian two's-complement octets.
pub open spec fn signed_value(b: Seq<u8>) -> int {
    if b.len() > 0 && b[0] >= 128 {
        be_value(b) - pow256(b.len())
    } else {
        be_value(b) as int
    }
}

/// The integer that an element holds in at most `w` octets, if it holds one:
/// a primitive payload of one to `w` octets.
pub open spec fn int_of(t: TagView, w: nat) -> Option<int> {
    match t.payload {
        PayloadView::Primitive(b) => if 1 <= b.len() <= w {
            Some(signed_value(b))
        } else {
            None
        },
        PayloadView::Constructed(_) => None,
    }
}

/// The element of class `class` that holds `v` in `w` octets.
pub open spec fn int_tag(v: int, w: nat, class: Class) -> TagView {
    TagView { class, length: w, payload: PayloadView::Primitive(int_octets(v, w)) }
}

/// `256^k` is positive and grows with `k`.
pub proof fn lemma_pow256_mono(a: nat, b: nat)
    requires
        a <= b,
    ensures
        0 < pow256(a) <= pow256(b),
    decreases b,
{
    if a < b {
        lemma_pow256_mono(a, (b - 1) as nat);
    } else if a > 0 {
        lemma_pow256_mono((a - 1) as nat, (a - 1) as nat);
    }
}

proof fn lemma_fixed_be(n: nat, w: nat)
    requires
        n < pow256(w),
    ensures
        fixed_be(n, w).len() == w,
        be_value(fixed_be(n, w)) == n,
        w > 0 ==> fixed_be(n, w)[0] == n / pow256((w - 1) as nat),
    decreases w,
{
    if w > 0 {
        let w1 = (w - 1) as nat;
        let q = n / 256;
        assert(q < pow256(w1)) by (nonlinear_arith)
            requires
                n < 256 * pow256(w1),
                q == n / 256,
        ;
        lemma_fixed_be(q, w1);
        let f = fixed_be(n, w);
        assert(f.subrange(0, f.len() - 1) =~= fixed_be(q, w1));
        assert(q * 256 + n % 256 == n);
        if w1 == 0 {
            assert(pow256(0) == 1);
            assert(n < 256);
            assert(f[0] == (n % 256) as u8);
            assert(n % 256 == n);
            assert(n / 1 == n);
            assert(n / pow256(0) == n / 1);
        } else {
            let p1 = pow256((w1 - 1) as nat);
            lemma_pow256_mono((w1 - 1) as nat, (w1 - 1) as nat);
            assert(f[0] == fixed_be(q, w1)[0]);
            assert(fixed_be(q, w1)[0] == q / p1);
            assert(pow256(w1) == 256 * p1);
            vstd::arithmetic::div_mod::lemma_div_denominator(n as int, 256, p1 as int);
            assert(n / pow256(w1) == q / p1);
        }
    }
}

/// An integer written in `w` octets of two's complement reads back unchanged.
pub proof fn lemma_int_octets(v: int, w: nat)
    requires
        w >= 1,
        -128 * pow256((w - 1) as nat) <= v < 128 * pow256((w - 1) as nat),
    ensures
        int_octets(v, w).len() == w,
        signed_value(int_octets(v, w)) == v,
{
    let w1 = (w - 1) as nat;
    assert(pow256(w) == 256 * pow256(w1));
    let u = twos_complement(v, w);
    lemma_fixed_be(u, w);
    let p = pow256(w1);
    if v < 0 {
        assert(u / p >= 128) by (nonlinear_arith)
            requires
                u == v + 256 * p,
                -128 * p <= v < 0,
                p > 0,
        ;
    } else {
        assert(u / p < 128) by (nonlinear_arith)
            requires
                u == v,
                0 <= v < 128 * p,
                p > 0,
        ;
    }
}

/// The unsigned number `n`, below `256^w`, in `w` big-endian octets.
fn fixed_octets(n: u64, w: usize) -> (r: Vec<u8>)
    requires
        w <= 8,
    ensures
        r@ == fixed_be(n as nat, w as nat),
{
    let mut out: Vec<u8> = Vec::new();
    let mut rest = n;
    let mut k: usize = w;
    while k > 0
        invariant
            k <= w,
            fixed_be(rest as nat, k as nat) + out@ == fixed_be(n as nat, w as nat),
        decreases k,
    {
        let ghost suffix = out@;
        let byte = (rest % 256) as u8;
        out.insert(0, byte);
        assert(fixed_be(rest as nat, k as nat) == fixed_be((rest / 256) as nat, (k - 1) as nat).push(
            byte,
        ));
        assert(fixed_be((rest / 256) as nat, (k - 1) as nat) + out@ =~= fixed_be(
            (rest / 256) as nat,
            (k - 1) as nat,
        ).push(byte) + suffix);
        rest = rest / 256;
        k = k - 1;
    }
    assert(fixed_be(rest as nat, 0) + out@ =~= out@);
    out
}

/// The signed value of a primitive payload of one to eight octets.
fn read_signed(b: &Vec<u8>) -> (r: i128)
    requires
        1 <= b@.len() <= 8,
    ensures
        r as int == signed_value(b@),
{
    let mut acc: u64 = 0;
    let mut k: usize = 0;
    while k < b.len()
        invariant
            k <= b@.len(),
            b@.len() <= 8,
            acc as nat == be_value(b@.subrange(0, k as int)),
        decreases b@.len() - k,
    {
        proof {
            let done = b@.subrange(0, k as int);
            crate::decoder::lemma_be_value_bound(done);
            assert(pow256(done.len()) <= pow256(7)) by {
                reveal_with_fuel(pow256, 8);
            }
            assert(pow256(7) == 0x100_0000_0000_0000) by {
                reveal_with_fuel(pow256, 8);
            }
            assert(b@.subrange(0, k + 1).subrange(0, k as int) =~= done);
        }
        acc = acc * 256 + b[k] as u64;
        k = k + 1;
    }
    assert(b@.subrange(0, k as int) =~= b@);
    if b[0] >= 128 {
        let mut scale: i128 = 1;
        let mut j: usize = 0;
        proof {
            assert(pow256(7) == 0x100_0000_0000_0000) by {
                reveal_with_fuel(pow256, 8);
            }
        }
        while j < b.len()
            invariant
                j <= b@.len(),
                b@.len() <= 8,
                scale as int == pow256(j as nat),
                pow256(7) == 0x100_0000_0000_0000,
            decreases b@.len() - j,
        {
            proof {
                lemma_pow256_mono(j as nat, 7);
                assert(pow256((j + 1) as nat) == 256 * pow256(j as nat));
            }
            scale = scale * 256;
            j = j + 1;
        }
        proof {
            lemma_pow256_mono(b@.len() as nat, 8);
            assert(pow256(8) == 256 * pow256(7));
        }
        acc as i128 - scale
    } else {
        acc as i128
    }
}

/// Values that have an encoding as a BER element.
pub trait ASNType: Sized {
    /// Whether the value can be encoded: its elements, if it holds some, are
    /// well formed and fit in memory together.
    spec fn encodable(&self) -> bool;

    /// The value as an element of its universal type.
    fn into_ber_universal(self) -> (r: Tag)
        requires
            self.encodable(),
        ensures
            r.wf(),
    ;

    /// The value as an element of class `class`.
    fn into_ber_typed(self, class: Class) -> (r: Tag)
        requires
            self.encodable(),
        ensures
            r.wf(),
            r.class == class,
    ;

    /// The value that `tag` holds, if it holds one of this type.
    fn from_tag(tag: &mut Tag) -> (r: Option<Self>)
        ensures
            *final(tag) == *old(tag),
    ;
}

impl ASNType for i32 {
    open spec fn encodable(&self) -> bool {
        true
    }

    fn into_ber_universal(self) -> (r: Tag)
        ensures
            r@ == int_tag(self as int, 4, Class::Universal(UniversalTypes::Integer)),
    {
        self.into_ber_typed(Class::Universal(UniversalTypes::Integer))
    }

    /// Four octets of two's complement, most significant first.
    fn into_ber_typed(self, class: Class) -> (r: Tag)
        ensures
            r@ == int_tag(self as int, 4, class),
    {
        let u: u64 = if self < 0 {
            (self as i64 + 0x1_0000_0000) as u64
        } else {
            self as u64
        };
        proof {
            assert(pow256(4) == 0x1_0000_0000) by {
                reveal_with_fuel(pow256, 5);
            }
            lemma_fixed_be(u as nat, 4);
        }
        let payload = fixed_octets(u, 4);
        Tag { class, payload: Payload::Primitive(payload), length: 4 }
    }

    /// The integer of a primitive payload of one to four octets.
    fn from_tag(tag: &mut Tag) -> (r: Option<i32>)
        ensures
            r == match int_of(old(tag)@, 4) {
                Some(v) => Some(v as i32),
                None => None::<i32>,
            },
            int_of(old(tag)@, 4) matches Some(v) ==> i32::MIN <= v <= i32::MAX,
    {
        match &tag.payload {
            Payload::Primitive(bytes) => {
                if bytes.len() >= 1 && bytes.len() <= 4 {
                    let v = read_signed(bytes);
                    proof {
                        lemma_signed_value_range(bytes@);
                        assert(pow256(3) == 0x100_0000) by {
                            reveal_with_fuel(pow256, 4);
                        }
                        assert(pow256((bytes@.len() - 1) as nat) <= pow256(3)) by {
                            reveal_with_fuel(pow256, 4);
                        }
                    }
                    Some(v as i32)
                } else {
                    None
                }
            },
            Payload::Constructed(_) => None,
        }
    }
}

impl ASNType for i64 {
    open spec fn encodable(&self) -> bool {
        true
    }

    fn into_ber_universal(self) -> (r: Tag)
        ensures
            r@ == int_tag(self as int, 8, Class::Universal(UniversalTypes::Integer)),
    {
        self.into_ber_typed(Class::Universal(UniversalTypes::Integer))
    }

    /// Eight octets of two's complement, most significant first.
    fn into_ber_typed(self, class: Class) -> (r: Tag)
        ensures
            r@ == int_tag(self as int, 8, class),
    {
        let u: u64 = if self < 0 {
            (self as i128 + 0x1_0000_0000_0000_0000) as u64
        } else {
            self as u64
        };
        proof {
            assert(pow256(8) == 0x1_0000_0000_0000_0000) by {
                reveal_with_fuel(pow256, 9);
            }
            lemma_fixed_be(u as nat, 8);
        }
        let payload = fixed_octets(u, 8);
        Tag { class, payload: Payload::Primitive(payload), length: 8 }
    }

    /// The integer of a primitive payload of one to eight octets.
    fn from_tag(tag: &mut Tag) -> (r: Option<i64>)
        ensures
            r == match int_of(old(tag)@, 8) {
                Some(v) => Some(v as i64),
                None => None::<i64>,
            },
            int_of(old(tag)@, 8) matches Some(v) ==> i64::MIN <= v <= i64::MAX,
    {
        match &tag.payload {
            Payload::Primitive(bytes) => {
                if bytes.len() >= 1 && bytes.len() <= 8 {
                    let v = read_signed(bytes);
                    proof {
                        lemma_signed_value_range(bytes@);
                        assert(pow256(7) == 0x100_0000_0000_0000) by {
                            reveal_with_fuel(pow256, 8);
                        }
                        assert(pow256((bytes@.len() - 1) as nat) <= pow256(7)) by {
                            reveal_with_fuel(pow256, 8);
                        }
                    }
                    Some(v as i64)
                } else {
                    None
                }
            },
            Payload::Constructed(_) => None,
        }
    }
}

/// The value of `n` octets of two's complement lies within `±128 * 256^(n-1)`.
proof fn lemma_signed_value_range(b: Seq<u8>)
    requires
        b.len() >= 1,
    ensures
        -128 * pow256((b.len() - 1) as nat) <= signed_value(b) < 128 * pow256((b.len() - 1) as nat),
{
    let w1 = (b.len() - 1) as nat;
    let p = pow256(w1);
    crate::decoder::lemma_be_value_bound(b);
    assert(pow256(b.len()) == 256 * p);
    let lead = seq![b[0]];
    let tail = b.subrange(1, b.len() as int);
    lemma_be_value_split(b);
    crate::decoder::lemma_be_value_bound(tail);
    let v = be_value(b);
    let t = be_value(tail);
    if b[0] >= 128 {
        assert(v >= 128 * p) by (nonlinear_arith)
            requires
                v == b[0] * p + t,
                b[0] >= 128,
                t >= 0,
                p > 0,
        ;
    } else {
        assert(v < 128 * p) by (nonlinear_arith)
            requires
                v == b[0] * p + t,
                b[0] < 128,
                t < p,
                p > 0,
        ;
    }
}

/// The big-endian value of octets is the first octet's share plus that of the rest.
proof fn lemma_be_value_split(b: Seq<u8>)
    requires
        b.len() >= 1,
    ensures
        be_value(b) == b[0] * pow256((b.len() - 1) as nat) + be_value(b.subrange(1, b.len() as int)),
    decreases b.len(),
{
    if b.len() == 1 {
        assert(b.subrange(0, 0) =~= Seq::<u8>::empty());
        assert(b.subrange(1, 1) =~= Seq::<u8>::empty());
        assert(be_value(b.subrange(0, 0)) == 0);
        assert(be_value(b.subrange(1, 1)) == 0);
        assert(pow256(0) == 1);
        assert(be_value(b) == b[0] as int);
        let b0 = b[0] as int;
        assert(b0 * pow256(0) == b0) by (nonlinear_arith)
            requires
                pow256(0) == 1,
        ;
    } else {
        let init = b.subrange(0, b.len() - 1);
        lemma_be_value_split(init);
        let tail = b.subrange(1, b.len() as int);
        assert(tail.subrange(0, tail.len() - 1) =~= init.subrange(1, init.len() as int));
        let p = pow256((init.len() - 1) as nat);
        assert(pow256((b.len() - 1) as nat) == 256 * p);
        let ti = be_value(init.subrange(1, init.len() as int));
        let last = b[b.len() - 1] as int;
        let b0 = b[0] as int;
        assert(init[0] == b[0]);
        assert(tail[tail.len() - 1] == b[b.len() - 1]);
        assert(be_value(tail) == ti * 256 + last);
        assert(be_value(init) == b0 * p + ti);
        assert(be_value(b) == be_value(init) * 256 + last);
        assert(be_value(b) == (b0 * p + ti) * 256 + last);
        assert((b0 * p + ti) * 256 == b0 * (256 * p) + ti * 256) by (nonlinear_arith);
        assert(be_value(b) == b0 * (256 * p) + be_value(tail));
        let q = pow256((b.len() - 1) as nat);
        assert(b0 * q == b0 * (256 * p)) by (nonlinear_arith)
            requires
                q == 256 * p,
        ;
    }
}

impl ASNType for Vec<Tag> {
    open spec fn encodable(&self) -> bool {
        &&& PayloadView::Constructed(tags_view(self@)).wf()
        &&& encode_all(tags_view(self@)).len() <= usize::MAX
    }

    fn into_ber_universal(self) -> (r: Tag)
        ensures
            r@.class == Class::Universal(UniversalTypes::Sequence),
            r@.payload == PayloadView::Constructed(tags_view(self@)),
    {
        self.into_ber_typed(Class::Universal(UniversalTypes::Sequence))
    }

    /// A constructed element holding the elements in order.
    fn into_ber_typed(self, class: Class) -> (r: Tag)
        ensures
            r@.class == class,
            r@.payload == PayloadView::Constructed(tags_view(self@)),
    {
        Tag::new(class, Payload::Constructed(self))
    }

    /// A sequence is not read back through this trait: its elements are taken
    /// out with `Payload::into_inner_constructed`.
    fn from_tag(tag: &mut Tag) -> (r: Option<Vec<Tag>>)
        ensures
            r is None,
    {
        None
    }
}

} // verus!
