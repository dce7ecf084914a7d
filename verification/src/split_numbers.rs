//! Splitting unsigned integers into bytes.

use vstd::prelude::*;
use crate::join::{be_value, Unsigned};

verus! {

/// The bytes of a number, most significant first, without leading zero
/// bytes; zero is one zero byte.
pub open spec fn be_bytes(v: nat) -> Seq<u8>
    decreases v,
{
    if v < 256 {
        seq![v as u8]
    } else {
        be_bytes(v / 256).push((v % 256) as u8)
    }
}

/// Splitting and joining are inverse: the bytes of a number stand for the
/// number, and they hold no leading zero byte but for zero itself, which
/// is one zero byte.
pub proof fn law_split_then_join(v: nat)
    ensures
        be_value(be_bytes(v)) == v,
        be_bytes(v).len() >= 1,
        v > 0 ==> be_bytes(v)[0] != 0,
    decreases v,
{
    if v < 256 {
        let s = seq![v as u8];
        assert(s.drop_last() =~= Seq::<u8>::empty());
        assert(be_value(s.drop_last()) == 0);
    } else {
        law_split_then_join(v / 256);
        let s = be_bytes(v / 256);
        assert(s.push((v % 256) as u8).drop_last() =~= s);
    }
}

/// Appends the bytes of `v`, most significant first.
fn push_be_bytes(buf: &mut Vec<u8>, v: u128)
    ensures
        final(buf)@ == old(buf)@ + be_bytes(v as nat),
    decreases v,
{
    if v < 256 {
        buf.push(v as u8);
    } else {
        push_be_bytes(buf, v / 256);
        buf.push((v % 256) as u8);
    }
    proof {
        assert(final(buf)@ =~= old(buf)@ + be_bytes(v as nat));
    }
}

/// Splits an unsigned integer into its bytes, most significant first. The
/// leading zero bytes are left out; zero gives one zero byte.
pub fn unsigned_to_vec<T: Unsigned>(num: T) -> (bytes: Vec<u8>)
    ensures
        bytes@ == be_bytes(num.value()),
        be_value(bytes@) == num.value(),
{
    let mut buf: Vec<u8> = Vec::new();
    push_be_bytes(&mut buf, num.widen());
    proof {
        law_split_then_join(num.value());
        assert(buf@ =~= be_bytes(num.value()));
    }
    buf
}

} // verus!
