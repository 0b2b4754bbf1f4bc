//! What the calls of the BCJ2 encoder do, one after another.

use crate::codec::bcj2;
use crate::codec::bcj2::{Bcj2Encoder, Bcj2Streams};
use vstd::prelude::*;

verus! {

/// Code that is written in two pieces, and finished, puts out the four streams that the whole is split
/// into, behind what was there; and these join to the code again.
pub proof fn law_encoder_splits_code<'a>(
    e: &mut Bcj2Encoder,
    a: &[u8],
    s: &mut Bcj2Streams<'a>,
    f: &mut Bcj2Encoder,
    b: &[u8],
    t: &mut Bcj2Streams<'a>,
    u: &mut Bcj2Streams<'a>,
    written: Result<(), std::io::Error>,
    more: Result<(), std::io::Error>,
    rc: Result<Vec<u8>, std::io::Error>,
)
    requires
        a@.len() + b@.len() < 0x1_0000_0000_0000_0000,
        call_ensures(Bcj2Encoder::new, (), *old(e)),
        call_ensures(Bcj2Encoder::write, (e, a, s), written),
        *old(f) == *final(e),
        *old(t) == *final(s),
        call_ensures(Bcj2Encoder::write, (f, b, t), more),
        *old(u) == *final(t),
        call_ensures(Bcj2Encoder::finish, (*final(f), u), rc),
    ensures
        ({
            let x = bcj2::split(a@ + b@);
            &&& written is Ok && more is Ok && rc is Ok
            &&& final(u).main@ == old(s).main@ + x.main
            &&& final(u).call@ == old(s).call@ + x.call
            &&& final(u).jump@ == old(s).jump@ + x.jump
            &&& rc->Ok_0@ == x.rc
            &&& bcj2::unsplit(x) == Some(a@ + b@)
        }),
{
    let pieces = seq![a@, b@];
    let x = bcj2::split(a@ + b@);
    assert(pieces.drop_last() =~= seq![a@]);
    assert(seq![a@].drop_last() =~= Seq::empty());
    reveal_with_fuel(bcj2::fed, 3);
    reveal_with_fuel(bcj2::concatenated, 3);
    assert(bcj2::concatenated(pieces) =~= a@ + b@);
    bcj2::law_pieces_make_no_difference(pieces);
    bcj2::law_join_reads_back_split(a@ + b@);
    assert(Seq::<u8>::empty() + a@ =~= a@);
    let one = bcj2::scan(0, 0, a@, false);
    assert(bcj2::fed(seq![a@]) == one.after(bcj2::stopped(0, 0, Seq::empty())));
    let s1 = bcj2::fed(seq![a@]);
    assert(s1.main =~= one.main);
    assert(s1.call =~= one.call);
    assert(s1.jump =~= one.jump);
    assert(s1.decisions =~= one.decisions);
    assert(final(e)@.decisions =~= one.decisions);
    let two = bcj2::scan(one.prev, one.ip, one.rest + b@, false);
    assert(bcj2::fed(pieces) == two.after(s1));
    let end = bcj2::scan(two.prev, two.ip, two.rest, true);
    assert(final(u).main@ =~= old(s).main@ + x.main);
    assert(final(u).call@ =~= old(s).call@ + x.call);
    assert(final(u).jump@ =~= old(s).jump@ + x.jump);
}

} // verus!
