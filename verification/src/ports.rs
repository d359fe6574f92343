//! The port schedule of one scanning worker: starting just above its own
//! offset, a worker probes every `num_threads`-th port until it gets within
//! one stride of the end.
use vstd::prelude::*;

verus! {

/// The ports one worker probes: each port from `current` on, one stride
/// apart, up to and including the first port within one stride of `end`.
pub open spec fn scan_schedule(current: int, end: int, t: int) -> Seq<int>
    decreases end - current,
    when 1 <= t && current <= end
{
    if end - current <= t {
        seq![current]
    } else {
        seq![current] + scan_schedule(current + t, end, t)
    }
}

/// The ports as runtime values.
pub open spec fn port_views(v: Seq<u16>) -> Seq<int> {
    v.map_values(|p: u16| p as int)
}

/// Lists the ports a worker with starting offset `start` and stride
/// `num_threads` probes, in order.
pub fn ports_to_scan(start: u16, end: u16, num_threads: u16) -> (r: Vec<u16>)
    requires
        start < end,
        num_threads >= 1,
    ensures
        port_views(r@) == scan_schedule(start as int + 1, end as int, num_threads as int),
{
    let mut r: Vec<u16> = Vec::new();
    let mut current: u16 = start + 1;
    r.push(current);
    proof {
        assert(port_views(r@) =~= seq![current as int]);
    }
    while end - current > num_threads
        invariant
            num_threads >= 1,
            start < current <= end,
            scan_schedule(start as int + 1, end as int, num_threads as int) == port_views(r@) + (
            if end - current > num_threads {
                scan_schedule(current as int + num_threads as int, end as int, num_threads as int)
            } else {
                Seq::<int>::empty()
            }),
        decreases end as int - current as int,
    {
        current = current + num_threads;
        r.push(current);
        proof {
            assert(port_views(r@) =~= port_views(r@.drop_last()) + seq![current as int]);
            if end - current > num_threads {
                assert(scan_schedule(current as int, end as int, num_threads as int) == seq![
                    current as int,
                ] + scan_schedule(
                    current as int + num_threads as int,
                    end as int,
                    num_threads as int,
                ));
            }
            assert(scan_schedule(start as int + 1, end as int, num_threads as int) =~= port_views(
                r@,
            ) + (if end - current > num_threads {
                scan_schedule(current as int + num_threads as int, end as int, num_threads as int)
            } else {
                Seq::<int>::empty()
            }));
        }
    }
    proof {
        assert(scan_schedule(start as int + 1, end as int, num_threads as int) =~= port_views(r@));
    }
    r
}

/// Sorts the collected open ports in place, ascending; the multiset of
/// ports is unchanged.
pub fn sort_ports(v: &mut Vec<u16>)
    ensures
        final(v)@.len() == old(v)@.len(),
        forall|a: int, b: int| 0 <= a < b < final(v)@.len() ==> final(v)@[a] <= final(v)@[b],
        final(v)@.to_multiset() == old(v)@.to_multiset(),
{
    broadcast use vstd::multiset::group_multiset_axioms;
    broadcast use vstd::multiset::group_multiset_properties;

    let n = v.len();
    if n == 0 {
        return ;
    }
    let mut i: usize = 1;
    while i < n
        invariant
            n == v@.len(),
            1 <= i <= n,
            v@.to_multiset() == old(v)@.to_multiset(),
            forall|a: int, b: int| 0 <= a < b < i ==> v@[a] <= v@[b],
        decreases n - i,
    {
        let mut j: usize = i;
        while j > 0 && v[j - 1] > v[j]
            invariant
                n == v@.len(),
                j <= i < n,
                v@.to_multiset() == old(v)@.to_multiset(),
                forall|a: int, b: int| 0 <= a < b <= i && b != j ==> v@[a] <= v@[b],
            decreases j,
        {
            let ghost s0 = v@;
            let x = v[j - 1];
            let y = v[j];
            v[j - 1] = y;
            v[j] = x;
            proof {
                let s1 = s0.update(j - 1, y);
                assert(v@ == s1.update(j as int, x));
                vstd::seq_lib::to_multiset_update(s0, j - 1, y);
                vstd::seq_lib::to_multiset_update(s1, j as int, x);
                assert(s0.contains(x) && s0.contains(y));
                vstd::seq_lib::to_multiset_contains(s0, x);
                vstd::seq_lib::to_multiset_contains(s0, y);
                assert(v@.to_multiset() =~= s0.to_multiset());
            }
            j = j - 1;
        }
        i = i + 1;
    }
}

} // verus!
