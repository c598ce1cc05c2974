//! From the two channels of the voice transport to one.

use vstd::prelude::*;

verus! {

/// The mean of a left and a right sample, rounded toward zero.
pub open spec fn mix(left: i16, right: i16) -> i16 {
    let sum = left + right;
    if sum >= 0 {
        (sum / 2) as i16
    } else {
        (-((-sum) / 2)) as i16
    }
}

/// The mono stream of an interleaved stereo stream: one sample for every
/// pair. A last sample without its partner is left out.
pub open spec fn downmixed(stereo: Seq<i16>) -> Seq<i16> {
    Seq::new((stereo.len() / 2) as nat, |i: int| mix(stereo[2 * i], stereo[2 * i + 1]))
}

/// The mean of a left and a right sample, rounded toward zero. The sum is
/// taken in 32 bits and cannot overflow.
pub fn mix_pair(left: i16, right: i16) -> (r: i16)
    ensures
        r == mix(left, right),
        left <= right ==> left <= r <= right,
        right <= left ==> right <= r <= left,
{
    let sum: i32 = left as i32 + right as i32;
    if sum >= 0 {
        (sum / 2) as i16
    } else {
        let half: i32 = (-sum) / 2;
        (-half) as i16
    }
}

/// Mixes an interleaved stereo stream down to mono.
pub fn downmix(stereo: &[i16]) -> (mono: Vec<i16>)
    ensures
        mono@ == downmixed(stereo@),
        mono@.len() == stereo@.len() / 2,
{
    let n = stereo.len() / 2;
    let mut mono: Vec<i16> = Vec::with_capacity(n);
    let mut i: usize = 0;
    while i < n
        invariant
            n == stereo@.len() / 2,
            stereo@.len() <= usize::MAX,
            i <= n,
            mono@.len() == i,
            forall|k: int| 0 <= k < i ==> mono@[k] == downmixed(stereo@)[k],
        decreases n - i,
    {
        mono.push(mix_pair(stereo[2 * i], stereo[2 * i + 1]));
        i = i + 1;
    }
    assert(mono@ =~= downmixed(stereo@));
    mono
}

/// A mono stream played on both channels mixes down to itself.
pub proof fn lemma_mix_same(x: i16)
    ensures
        mix(x, x) == x,
{
}

} // verus!
