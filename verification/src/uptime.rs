use vstd::prelude::*;

verus! {

/// The hours, minutes and seconds shown for an uptime of `seconds`, as in
/// `{h}h{m}m{s}s`: whole hours, the minutes within the hour and the seconds
/// within the minute.
pub fn hour_minute_seconds(seconds: u64) -> (r: (u64, u64, u64))
    ensures
        r == (seconds / 3600, (seconds / 60) % 60, seconds % 60),
{
    let h = seconds / (60 * 60);
    let m = (seconds / 60) % 60;
    let s = seconds % 60;
    (h, m, s)
}

} // verus!
