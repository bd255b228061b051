use flock_core::cpu_keepalive::{
    keepalive_exited, keepalive_join, keepalive_signal, keepalive_spawned, keepalive_start,
    keepalive_stop, keeps_spinning, spin_batch, Joining, Keepalive, MAX_KEEPALIVE_NS,
};
use flock_core::field::F128;
use flock_core::gaptime::{begin, mark, Gap, GapClock};
use flock_core::gpu::{
    disable, is_disabled, metal_available, note_context, prewire, undisable, wrap_hit, wrap_input, wrap_nocopy,
    GpuState, WrapPlan, G_MAX, G_MIN, PAGE, WRAP_CACHE_CAP, WRAP_CACHE_MIN_BYTES,
};
use flock_core::merkle::{self, needed_nodes, ParentPlan};
use flock_core::topology::{
    count_physical_cores, cpus_below, hugepage_range, init_perf_thread_pool, is_cpu_dir,
    parse_cpu_list, parse_usize, perf_core_count, pin_mask, pinned_order, plan_pool, pool_outcome,
    present_cpus, sibling_groups, smt_split, HostCores, PoolPlan,
};
use flock_core::urm::{self, ShareArgs};

/// Starts `threads` spin threads, all of which come up.
fn start(k: &mut Keepalive, threads: usize) {
    for _ in 0..keepalive_start(k, false, threads) {
        assert!(keepalive_spawned(k, true));
    }
}

/// Stops the threads, each of which finishes.
fn stop(k: &mut Keepalive) {
    let mut state = keepalive_stop(k);
    while state == Joining::Waiting {
        keepalive_exited(k);
        state = keepalive_join(k);
    }
    assert_eq!(state, Joining::Quiet);
}

#[test]
fn start_then_stop_is_clean() {
    let mut k = Keepalive::new();
    start(&mut k, 4);
    stop(&mut k);
    assert!(!k.running);
    assert_eq!(k.live, 0);
}

#[test]
fn stop_without_start_is_noop() {
    let mut k = Keepalive::new();
    stop(&mut k);
    stop(&mut k);
    assert!(!k.running);
    assert_eq!(k.live, 0);
}

#[test]
fn restart_after_stop_is_clean() {
    let mut k = Keepalive::new();
    start(&mut k, 4);
    stop(&mut k);
    start(&mut k, 4);
    stop(&mut k);
    assert!(!k.running);
    assert_eq!(k.live, 0);
}

#[test]
fn starting_is_idempotent_and_can_be_switched_off() {
    let mut k = Keepalive::new();
    assert_eq!(keepalive_start(&mut k, true, 4), 0);
    assert!(!k.running);
    assert_eq!(keepalive_start(&mut k, false, 0), 1);
    assert_eq!(keepalive_start(&mut k, false, 4), 0);
    assert!(!keepalive_spawned(&mut k, false));
    assert!(keepalive_spawned(&mut k, true));
    keepalive_signal(&mut k);
    assert_eq!(keepalive_join(&k), Joining::Waiting);
    keepalive_exited(&mut k);
    assert_eq!(keepalive_join(&k), Joining::Quiet);
    assert!(keeps_spinning(true, MAX_KEEPALIVE_NS - 1));
    assert!(!keeps_spinning(true, MAX_KEEPALIVE_NS));
    assert!(!keeps_spinning(false, 0));
}

#[test]
fn spinning_churns_sixty_four_times() {
    let mut x = 0x9E37_79B9_7F4A_7C15u64;
    let got = spin_batch(x);
    for _ in 0..64 {
        x = x
            .wrapping_mul(0x2545_F491_4F6C_DD1D)
            .wrapping_add(0x9E37_79B9_7F4A_7C15);
        x ^= x >> 29;
    }
    assert_eq!(got, x);
}

#[test]
fn gaps_add_up_to_the_whole_time() {
    let mut c = GapClock::new();
    assert!(!begin(&mut c, false, 5));
    assert_eq!(mark(&mut c, false, 9), None);
    assert_eq!(c, GapClock::new());
    assert!(begin(&mut c, true, 100));
    let mut total = 0;
    for now in [130u64, 130, 175, 400] {
        let g = mark(&mut c, true, now).unwrap();
        total += g.delta_ns;
        assert_eq!(g.offset_ns, now - 100);
        assert_eq!(total, g.offset_ns);
    }
    assert_eq!(
        mark(&mut c, true, 90),
        Some(Gap {
            delta_ns: 0,
            offset_ns: 0
        })
    );
}

#[test]
fn buffers_are_bound_in_place_copied_or_refused() {
    assert_eq!(wrap_input(0, PAGE), WrapPlan::NoCopy);
    assert_eq!(wrap_input(PAGE, 0), WrapPlan::Copy);
    assert_eq!(wrap_input(1, PAGE), WrapPlan::Copy);
    assert_eq!(wrap_input(1, 32 << 20), WrapPlan::Copy);
    assert_eq!(wrap_input(1, (32 << 20) + 1), WrapPlan::Refuse);
    assert_eq!(wrap_input(0, 64 << 20), WrapPlan::NoCopy);
}

#[test]
fn only_large_bindings_are_kept_and_only_so_many() {
    let mut g = GpuState::new(true, false, false, false);
    let big = WRAP_CACHE_MIN_BYTES;
    assert!(!wrap_nocopy(&mut g, 0, big - PAGE));
    for i in 0..WRAP_CACHE_CAP {
        assert!(!wrap_hit(&g, i * PAGE, big));
        assert!(wrap_nocopy(&mut g, i * PAGE, big));
        assert!(wrap_hit(&g, i * PAGE, big));
        assert!(!wrap_nocopy(&mut g, i * PAGE, big));
    }
    assert!(!wrap_nocopy(&mut g, 99 * PAGE, big));
    assert_eq!(g.wrap_cache.len(), WRAP_CACHE_CAP);
    assert!(prewire(&g, PAGE, big));
    assert!(!prewire(&g, PAGE + 1, big));
    assert!(!prewire(&g, PAGE, big - PAGE));
    disable(&mut g);
    assert!(is_disabled(&g));
    assert!(!prewire(&g, PAGE, big));
    undisable(&mut g);
    assert!(prewire(&g, PAGE, big));
    assert!(!metal_available(&GpuState::without_gpu()));
    assert!(!is_disabled(&GpuState::without_gpu()));
}

#[test]
fn the_split_engages_only_on_large_calibrated_instances() {
    let mut g = GpuState::new(true, false, false, false);
    assert_eq!(urm::planned_g(&g, 128, 26), 64);
    assert_eq!(urm::planned_g(&g, 128, 25), 0);
    assert_eq!(urm::planned_g(&g, 64, 30), 0);
    assert!(urm::keepalive_should_run(&g));
    urm::set_enabled(&mut g, false);
    assert!(!urm::enabled(&g));
    assert_eq!(urm::planned_g(&g, 128, 26), 0);
    urm::set_enabled(&mut g, true);
    // A run without a split calibrates nothing, and later ones come too late.
    urm::note_calibration(&mut g, 0, 128, Some(96));
    assert_eq!(g.split_g, 64);
    urm::note_calibration(&mut g, 64, 64, Some(96));
    assert_eq!(g.split_g, 64);
    let mut g = GpuState::new(true, false, false, false);
    urm::note_calibration(&mut g, 64, 64, Some(urm::calibrated_share(true, 5)));
    assert_eq!(g.split_g, 0);
    assert!(!urm::keepalive_should_run(&g));
    assert_eq!(urm::planned_g(&g, 128, 30), 0);
    assert_eq!(urm::calibrated_share(false, 5), 16);
    assert_eq!(urm::calibrated_share(false, 51), 51);
    assert_eq!(urm::calibrated_share(false, 200), 112);
    for g in [
        GpuState::new(false, false, false, false),
        GpuState::new(true, true, false, false),
        GpuState::new(true, false, true, false),
        GpuState::without_gpu(),
    ] {
        assert_eq!(urm::planned_g(&g, 128, 30), 0);
        assert!(!urm::keepalive_should_run(&g));
    }
}

fn share<'a>(lo: &'a [F128], g: usize, tile: Option<usize>) -> ShareArgs<'a> {
    ShareArgs {
        a_packed: &[],
        b_packed: &[],
        c_packed: &[],
        inv_table: &[],
        eq_lo_scaled: lo,
        eq_hi: &[],
        b_med_counts: &[],
        within_outer_mask: 7,
        n_lo: 3,
        n_lo_and_inner: 9,
        g,
        tile_x_outer_lo: tile,
    }
}

#[test]
fn shares_are_cut_into_whole_streams() {
    let state = GpuState::new(true, false, false, false);
    let lo = vec![F128::zero(); 1500];
    let job = urm::plan_share(&state, &share(&lo, 4, None)).unwrap();
    assert_eq!((job.tile_size, job.n_tiles, job.n_iters), (512, 3, 64));
    assert_eq!(job.n_slots, 12);
    assert_eq!(job.out_bytes, 12 * 3 * 64 * 16);
    assert_eq!(job.params.big_lo_size, 1500);
    assert_eq!(job.params.within_outer_mask, 7);
    let job = urm::plan_share(&state, &share(&lo[..10], 1, None)).unwrap();
    assert_eq!((job.tile_size, job.n_tiles, job.n_iters), (16, 1, 2));
    let job = urm::plan_share(&state, &share(&lo[..20], 2, Some(9))).unwrap();
    assert_eq!((job.tile_size, job.n_tiles), (16, 2));
    let job = urm::plan_share(&state, &share(&lo[..20], 2, Some(0))).unwrap();
    assert_eq!((job.tile_size, job.n_tiles), (8, 3));
    assert!(urm::plan_share(&state, &share(&lo, 0, None)).is_none());
    assert!(urm::plan_share(&GpuState::without_gpu(), &share(&lo, 4, None)).is_none());
}

#[test]
fn finished_shares_are_merged_and_failed_ones_latch() {
    let mut state = GpuState::new(true, false, false, false);
    let lo = vec![F128::zero(); 20];
    let at = (PAGE, PAGE, PAGE);
    let job = urm::start_share(&mut state, &share(&lo, 1, Some(8)), at, true).unwrap();
    assert_eq!(job.n_slots, 3);
    let out: Vec<F128> = (0..3 * 192u64).map(|i| F128 { lo: i, hi: i * i }).collect();
    let res = job.finish(&mut state, Some(&out)).unwrap();
    for lane in 0..64 {
        for (bank, got) in [&res.res_ab, &res.res_c0, &res.res_c1].iter().enumerate() {
            let at = bank * 64 + lane;
            assert_eq!(got[lane], out[at] + out[192 + at] + out[384 + at]);
        }
    }
    assert!(!is_disabled(&state));
    assert!(job.finish(&mut state, None).is_none());
    assert!(is_disabled(&state));
    // Behind the latch nothing starts; without it a refused dispatch latches again.
    assert!(urm::start_share(&mut state, &share(&lo, 1, None), at, true).is_none());
    undisable(&mut state);
    assert!(urm::start_share(&mut state, &share(&lo, 0, None), at, false).is_none());
    assert!(!is_disabled(&state));
    assert!(urm::start_share(&mut state, &share(&lo, 1, None), at, false).is_none());
    assert!(is_disabled(&state));
}

#[test]
fn a_witness_that_cannot_be_bound_latches() {
    let mut state = GpuState::new(true, false, false, false);
    let lo = vec![F128::zero(); 8];
    let big = vec![0u8; (32 << 20) + 1];
    let mut args = share(&lo, 1, None);
    args.c_packed = &big;
    let at = (PAGE, PAGE, PAGE);
    assert!(urm::start_share(&mut state, &args, at, true).is_none());
    assert!(is_disabled(&state));
}

#[test]
fn merkle_begin_shape_checks_do_not_latch() {
    let mut g = GpuState::new(true, false, false, false);
    let tree_len = PAGE / 32;
    let mut open = |data_len: usize, leaf: usize, tree: usize, len: usize, stop: usize| {
        merkle::begin(&mut g, PAGE, data_len, leaf, tree, len, stop, true, true)
    };
    for ls in [0usize, 32, 96 + 1, 2048] {
        assert!(open(4096, ls, PAGE, tree_len, 1).is_none());
    }
    assert!(open(1000, 64, PAGE, tree_len, 1).is_none());
    assert!(open(4096, 64, PAGE + 32, tree_len - 1, usize::MAX).is_none());
    assert!(open(4096, 64, PAGE, 100, 1).is_none());
    assert!(open(3 * 64, 64, PAGE, tree_len, 1).is_none());
    assert!(open(0, 64, PAGE, tree_len, 1).is_none());
    let s = open(4096, 64, PAGE, tree_len, 1).unwrap();
    assert_eq!(s.n_leaves(), 64);
    assert_eq!((s.words_per_leaf, s.n_blocks, s.stop_nodes), (16, 1, 1));
    assert!(open(3 * 64, 64, PAGE, tree_len, usize::MAX).is_some());
    assert!(
        !is_disabled(&g),
        "shape checks must not latch the failure fallback"
    );
    assert!(merkle::begin(&mut g, 1, 64 << 20, 1024, PAGE, 1 << 20, 1, true, true).is_none());
    assert!(merkle::begin(&mut g, 1, 64 << 20, 1024, PAGE, 1 << 20, 1, false, false).is_none());
    assert!(!is_disabled(&g));
    assert!(merkle::begin(&mut g, PAGE, 4096, 64, PAGE, tree_len, 1, false, true).is_none());
    assert!(is_disabled(&g));
    undisable(&mut g);
    assert!(merkle::begin(&mut g, PAGE, 4096, 64, PAGE, tree_len, 1, true, false).is_none());
    assert!(is_disabled(&g));
    assert!(!merkle::available(&g));
    undisable(&mut g);
    merkle::set_enabled(&mut g, false);
    assert!(!merkle::available(&g));
}

#[test]
fn sessions_plan_leaves_levels_and_outcomes() {
    let mut g = GpuState::new(true, false, false, false);
    let tree_len = PAGE / 32;
    let mut s = merkle::begin(&mut g, PAGE, 600 * 64, 64, PAGE, 2 * tree_len, usize::MAX, true, true)
        .unwrap();
    let d = s.commit_leaves(&g, 10, 600).unwrap();
    assert_eq!((d.leaf_lo, d.count, d.groups), (10, 590, 3));
    assert!(s.commit_leaves(&g, 10, 10).is_none());
    assert!(s.commit_leaves(&g, 10, 601).is_none());
    assert_eq!(s.commit_parent_levels(&g), ParentPlan::LeafOnly);
    s.committed(&mut g, true);
    assert_eq!(s.committed, 1);
    assert!(s.finish(&mut g, true));

    let mut s = merkle::begin(&mut g, PAGE, 4096, 64, PAGE, tree_len, 8, true, true).unwrap();
    match s.commit_parent_levels(&g) {
        ParentPlan::Levels(levels) => {
            let got: Vec<(usize, usize, usize)> = levels
                .iter()
                .map(|l| (l.src_base, l.dst_base, l.count))
                .collect();
            assert_eq!(got, vec![(0, 64, 32), (64, 96, 16), (96, 112, 8)]);
            assert!(levels.iter().all(|l| l.groups == 1));
        }
        other => panic!("{other:?}"),
    }
    s.committed(&mut g, false);
    assert!(s.failed && is_disabled(&g));
    assert_eq!(s.commit_parent_levels(&g), ParentPlan::Failed);
    assert!(s.commit_leaves(&g, 0, 1).is_none());
    undisable(&mut g);
    assert!(!s.finish(&mut g, true));
    assert!(is_disabled(&g));
}

#[test]
fn needed_nodes_stop_at_the_last_level() {
    assert_eq!(needed_nodes(64, 1), 127);
    assert_eq!(needed_nodes(64, 8), 64 + 32 + 16 + 8);
    assert_eq!(needed_nodes(64, 64), 64);
    assert_eq!(needed_nodes(64, 0), 127);
    assert_eq!(needed_nodes(1, 1), 1);
}

#[test]
fn cpu_lists_are_read_strictly() {
    assert_eq!(parse_cpu_list(b"0-3,8"), Some(vec![(0, 3), (8, 8)]));
    assert_eq!(parse_cpu_list(b"7"), Some(vec![(7, 7)]));
    assert_eq!(parse_cpu_list(b"+5"), Some(vec![(5, 5)]));
    for bad in [
        b"".as_slice(),
        b"1,".as_slice(),
        b"a".as_slice(),
        b"1-2-3".as_slice(),
        b"1 ".as_slice(),
        b"-4".as_slice(),
        b"99999999999999999999999".as_slice(),
    ] {
        assert_eq!(parse_cpu_list(bad), None);
    }
    assert_eq!(parse_usize(b"007"), Some(7));
    assert_eq!(parse_usize(b"+"), None);
    assert_eq!(
        parse_usize(b"18446744073709551615"),
        Some(18446744073709551615)
    );
    assert_eq!(parse_usize(b"18446744073709551616"), None);
    assert_eq!(cpus_below(&vec![(2, 4), (3, 9), (0, 0)], 6), vec![0, 2, 3, 4, 5]);
    assert_eq!(cpus_below(&vec![(5, 2)], 9), Vec::<usize>::new());
}

fn lists(v: &[&str]) -> Vec<Option<Vec<u8>>> {
    v.iter()
        .map(|s| {
            if s.is_empty() {
                None
            } else {
                Some(s.as_bytes().to_vec())
            }
        })
        .collect()
}

#[test]
fn sibling_groups_follow_the_first_list_of_each_core() {
    // The second list of each core is never looked at.
    let l = lists(&["0,4", "1,5", "2,6", "3,7", "", "", "x", "9"]);
    let groups = sibling_groups(&l).unwrap();
    assert_eq!(groups, vec![vec![0, 4], vec![1, 5], vec![2, 6], vec![3, 7]]);
    assert_eq!(sibling_groups(&lists(&["0,4", ""])), None);
    assert_eq!(sibling_groups(&lists(&["0-9", "x"])), Some(vec![vec![0, 1]]));
    assert_eq!(
        pinned_order(false, Some(8), 8, Some(groups.clone())),
        Some(vec![0, 1, 2, 3, 4, 5, 6, 7])
    );
    assert_eq!(pinned_order(true, Some(8), 8, Some(groups.clone())), None);
    assert_eq!(pinned_order(false, Some(7), 8, Some(groups.clone())), None);
    assert_eq!(pinned_order(false, None, 8, Some(groups.clone())), None);
    assert_eq!(pinned_order(false, Some(8), 8, None), None);
    assert_eq!(pinned_order(false, Some(9), 9, Some(groups.clone())), None);
    assert_eq!(pinned_order(false, Some(2), 2, Some(vec![vec![0]])), None);

    let mut mask = [0u64; 16];
    mask[0] = 0xff;
    assert_eq!(
        smt_split(false, &groups, 8, 8, &mask),
        Some((vec![0, 1, 2, 3], vec![4, 5, 6, 7]))
    );
    assert_eq!(smt_split(true, &groups, 8, 8, &mask), None);
    assert_eq!(smt_split(false, &groups, 9, 8, &mask), None);
    assert_eq!(smt_split(false, &groups, 8, 7, &mask), None);
    mask[0] = 0x7f;
    assert_eq!(smt_split(false, &groups, 8, 8, &mask), None);
    assert_eq!(smt_split(false, &vec![vec![0, 1]], 2, 2, &[u64::MAX; 16]), None);
}

#[test]
fn masks_pins_and_counts() {
    let m = pin_mask(70).unwrap();
    assert_eq!(m[1], 1 << 6);
    assert_eq!(m.iter().map(|w| w.count_ones()).sum::<u32>(), 1);
    assert_eq!(pin_mask(1023).unwrap()[15], 1 << 63);
    assert_eq!(pin_mask(1024), None);
    assert_eq!(present_cpus(None), 0);
    assert_eq!(present_cpus(Some(b"0-15")), 16);
    assert_eq!(present_cpus(Some(b"0-3,8-11,x,5")), 12);
    assert_eq!(present_cpus(Some(b"")), 1);
    assert_eq!(perf_core_count(Some(4), Some(8)), 4);
    assert_eq!(perf_core_count(Some(9), Some(8)), 8);
    assert_eq!(perf_core_count(Some(0), Some(8)), 8);
    assert_eq!(perf_core_count(None, None), 1);
    assert_eq!(perf_core_count(Some(3), None), 1);
    for (name, want) in [
        ("cpu0", true),
        ("cpu12", true),
        ("cpu", false),
        ("cpufreq", false),
        ("xcpu1", false),
    ] {
        assert_eq!(is_cpu_dir(name.as_bytes()), want, "{name}");
    }
    let id = |p: &str, c: &str| (p.as_bytes().to_vec(), c.as_bytes().to_vec());
    let ids = vec![id("0", "0"), id("0", "1"), id("0", "0"), id("1", "0")];
    assert_eq!(count_physical_cores(&ids), Some(3));
    assert_eq!(count_physical_cores(&vec![]), None);
}

#[test]
fn huge_pages_cover_whole_pages_to_the_end() {
    assert_eq!(hugepage_range(4096, (1 << 21) - 1, false), None);
    assert_eq!(hugepage_range(4096, 1 << 21, true), None);
    assert_eq!(hugepage_range(4096, 1 << 21, false), Some((4096, 1 << 21)));
    assert_eq!(
        hugepage_range(4097, 1 << 21, false),
        Some((8192, (1 << 21) - 4095))
    );
}

#[test]
fn the_pool_is_left_alone_where_it_was_configured() {
    let two = HostCores { performance: Some(2), physical: None, available: Some(8) };
    assert_eq!(init_perf_thread_pool(Some(16), false, two), Some(16));
    assert_eq!(init_perf_thread_pool(None, true, two), None);
    assert_eq!(pool_outcome(true, 3), Some(3));
    assert_eq!(pool_outcome(false, 3), None);
    // The first call may build the pool; the second finds it there.
    let first = init_perf_thread_pool(None, false, two);
    assert!(first.is_none() || first == Some(2));
    assert_eq!(init_perf_thread_pool(None, false, two), None);
}

#[test]
fn the_pool_is_planned_by_the_cores() {
    let host = |performance, physical, available| HostCores { performance, physical, available };
    let named = host(Some(6), Some(4), Some(3));
    assert_eq!(plan_pool(Some(16), false, named), PoolPlan::Keep(16));
    assert_eq!(plan_pool(Some(16), true, named), PoolPlan::Keep(16));
    assert_eq!(plan_pool(None, true, named), PoolPlan::Leave);
    assert_eq!(plan_pool(None, false, named), PoolPlan::Build(6));
    assert_eq!(plan_pool(None, false, host(Some(0), Some(4), Some(8))), PoolPlan::Build(4));
    assert_eq!(plan_pool(None, false, host(None, Some(9), Some(8))), PoolPlan::Build(8));
    assert_eq!(plan_pool(None, false, HostCores::unknown()), PoolPlan::Build(1));
}

#[test]
fn a_planned_share_is_none_or_within_its_bounds() {
    for balanced in [0, 5, 16, 64, 112, 113, 128, usize::MAX] {
        for too_slow in [false, true] {
            let mut g = GpuState::new(true, false, false, false);
            let share = urm::calibrated_share(too_slow, balanced);
            urm::note_calibration(&mut g, 64, 64, Some(share));
            let planned = urm::planned_g(&g, 128, 26);
            assert_eq!(planned, share);
            assert!(planned == 0 || (G_MIN..=G_MAX).contains(&planned));
        }
    }
}

#[test]
fn waiting_is_quiet_once_each_thread_has_finished() {
    let mut k = Keepalive::new();
    assert_eq!(keepalive_stop(&mut k), Joining::Quiet);
    start(&mut k, 3);
    assert_eq!(keepalive_stop(&mut k), Joining::Waiting);
    for left in [2usize, 1, 0] {
        keepalive_exited(&mut k);
        assert_eq!(k, Keepalive { running: false, live: left });
        let quiet = keepalive_join(&k) == Joining::Quiet;
        assert_eq!(quiet, left == 0);
    }
}

#[test]
fn a_device_that_is_not_found_latches_the_fallback() {
    let mut g = GpuState::new(false, false, false, false);
    note_context(&mut g, true);
    assert!(metal_available(&g) && !is_disabled(&g));
    note_context(&mut g, false);
    assert!(!metal_available(&g) && is_disabled(&g));
    let mut off = GpuState::without_gpu();
    note_context(&mut off, false);
    assert!(!metal_available(&off) && !is_disabled(&off));
}
