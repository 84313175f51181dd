use exact_hnsw::assignment::{
    assignment_route, flat_amx_assignment_blocker, positive_setting, AmxAvailability,
    ApproxAssignParams, SimpleIndexStatus, MIN_CENTROID_VALUES_FOR_INDEX,
};
use exact_hnsw::distance::DistanceType;
use exact_hnsw::element::ElementType;

/// Both routes in service, so that only the shape can decline.
const ALL_ROUTES: AmxAvailability = AmxAvailability { native: true, rounded: true };

fn assert_declined(
    centroid_type: ElementType,
    num_centroids: usize,
    dimension: usize,
    distance_type: DistanceType,
    expected_reason: &str,
) {
    let blocker = flat_amx_assignment_blocker(
        centroid_type,
        num_centroids,
        dimension,
        distance_type,
        ALL_ROUTES,
    )
    .expect("this shape must be declined");
    assert!(
        blocker.contains(expected_reason),
        "blocked for {blocker:?}, expected something about {expected_reason:?}"
    );
}

/// Every shape the kernel cannot serve must keep the centroid index, and say why.
#[test]
fn test_flat_amx_assignment_declines_unsupported_shapes() {
    assert_declined(ElementType::Float64, 10_000, 768, DistanceType::Dot, "centroid type");
    assert_declined(ElementType::Float16, 10_000, 768, DistanceType::L2, "distance type");
    assert_declined(ElementType::Float32, 10_000, 768, DistanceType::L2, "distance type");
    assert_declined(ElementType::Float16, 10_000, 31, DistanceType::Dot, "dimension");
    assert_declined(ElementType::Float16, 31, 768, DistanceType::Dot, "centroid count");
    assert_declined(ElementType::Float32, 10_000, 31, DistanceType::Dot, "dimension");
    assert_declined(ElementType::Float32, 31, 768, DistanceType::Dot, "centroid count");
}

fn assert_blockers(
    native: bool,
    rounded: bool,
    half_blocker: Option<&str>,
    single_blocker: Option<&str>,
) {
    let amx = AmxAvailability { native, rounded };
    for (centroid_type, want) in
        [(ElementType::Float16, half_blocker), (ElementType::Float32, single_blocker)]
    {
        let got = flat_amx_assignment_blocker(centroid_type, 10_000, 768, DistanceType::Dot, amx);
        match want {
            None => assert_eq!(got, None, "{centroid_type:?} with {amx:?}"),
            Some(want) => assert!(
                got.is_some_and(|reason| reason.contains(want)),
                "{centroid_type:?} with {amx:?}: blocked for {got:?}, expected {want:?}"
            ),
        }
    }
}

/// The blocker's dependence on the two switches, enumerated.
#[test]
fn test_flat_amx_assignment_follows_amx_availability() {
    assert_blockers(true, true, None, None);
    assert_blockers(true, false, None, Some("LANCE_AMX_FP32_CAST is off"));
    assert_blockers(
        false,
        false,
        Some("AMX-FP16 is unavailable"),
        Some("AMX-FP16 is unavailable"),
    );
}

fn assert_route_names_the_path(
    centroid_type: ElementType,
    num_centroids: usize,
    dimension: usize,
    status: SimpleIndexStatus,
    below_index_threshold: bool,
) {
    for amx in [
        ALL_ROUTES,
        AmxAvailability { native: true, rounded: false },
        AmxAvailability { native: false, rounded: false },
    ] {
        let decision = assignment_route(
            centroid_type,
            num_centroids,
            dimension,
            DistanceType::Dot,
            amx,
            status,
        );
        let usable = flat_amx_assignment_blocker(
            centroid_type,
            num_centroids,
            dimension,
            DistanceType::Dot,
            amx,
        )
        .is_none();
        let context = format!("{centroid_type:?} with {amx:?}");
        let decided_elsewhere =
            below_index_threshold || matches!(status, SimpleIndexStatus::Disabled);
        let train_index = !usable && !decided_elsewhere;

        assert_eq!(decision.amx_blocker.is_none(), usable, "{context}");
        assert_eq!(
            decision.train_index, train_index,
            "{context}: route={} reason={}",
            decision.route, decision.reason
        );
        assert_eq!(
            decision.route,
            match (train_index, usable) {
                (true, _) => "hnsw",
                (false, true) => "flat+amx",
                (false, false) => "flat",
            },
            "{context}"
        );
        if !train_index {
            assert_eq!(
                below_index_threshold,
                decision.reason.contains("below the size"),
                "{context}: reason={}",
                decision.reason
            );
        }
    }
}

/// What is reported, over the routes it has to keep apart.
#[test]
fn test_assignment_route_names_the_path_with_amx() {
    assert_route_names_the_path(ElementType::Float16, 10_000, 768, SimpleIndexStatus::Auto, false);
    assert_route_names_the_path(ElementType::Float32, 10_000, 768, SimpleIndexStatus::Auto, false);
    assert_route_names_the_path(ElementType::Float32, 100, 1536, SimpleIndexStatus::Auto, true);
    assert_route_names_the_path(ElementType::Float16, 10_000, 768, SimpleIndexStatus::Disabled, false);
}

/// A shape the kernel cannot serve keeps the approximate index, and the route has
/// to name the condition that sent it there.
#[test]
fn test_assignment_route_reports_why_it_went_approximate() {
    let decision = assignment_route(
        ElementType::Float16,
        10_000,
        768,
        DistanceType::L2,
        ALL_ROUTES,
        SimpleIndexStatus::Auto,
    );
    assert!(decision.train_index);
    assert_eq!(decision.route, "hnsw");
    assert!(decision.reason.contains("distance type"), "reason={}", decision.reason);
    assert_eq!(decision.amx_blocker, Some(decision.reason));
}

/// Below the index threshold the route is flat either way, and the blocker is the
/// only field that separates the two arms.
#[test]
fn test_assignment_route_reports_the_amx_blocker_on_a_small_centroid_set() {
    let cast_off = AmxAvailability { native: true, rounded: false };
    let on = assignment_route(
        ElementType::Float32,
        100,
        1536,
        DistanceType::Dot,
        ALL_ROUTES,
        SimpleIndexStatus::Auto,
    );
    let off = assignment_route(
        ElementType::Float32,
        100,
        1536,
        DistanceType::Dot,
        cast_off,
        SimpleIndexStatus::Auto,
    );

    assert!(!on.train_index && !off.train_index);
    assert_eq!(
        on.reason, off.reason,
        "the threshold reason cannot tell the arms apart -- that is the point"
    );
    assert_eq!(on.route, "flat+amx");
    assert_eq!(off.route, "flat");
    assert_eq!(on.amx_blocker, None);
    assert_eq!(off.amx_blocker, Some("LANCE_AMX_FP32_CAST is off"));
}

#[test]
fn the_index_pays_from_a_million_values_on() {
    let route = |num_centroids, dimension| {
        assignment_route(
            ElementType::Float32,
            num_centroids,
            dimension,
            DistanceType::L2,
            ALL_ROUTES,
            SimpleIndexStatus::Auto,
        )
    };
    assert_eq!(MIN_CENTROID_VALUES_FOR_INDEX, 1_000_000);
    assert!(route(1000, 1000).train_index);
    assert!(!route(999, 1001).train_index);
    assert!(route(usize::MAX, 2).train_index);
}

#[test]
fn the_switch_outranks_the_shape() {
    let route = |status| {
        assignment_route(ElementType::Float16, 1, 1, DistanceType::Dot, ALL_ROUTES, status)
    };
    let on = route(SimpleIndexStatus::Enabled);
    assert!(on.train_index);
    assert_eq!((on.route, on.reason), ("hnsw", "LANCE_USE_HNSW_SPEEDUP_INDEXING=enabled"));
    let off = route(SimpleIndexStatus::Disabled);
    assert!(!off.train_index);
    assert_eq!((off.route, off.reason), ("flat", "LANCE_USE_HNSW_SPEEDUP_INDEXING=disabled"));
    assert_eq!(off.amx_blocker, Some("the dimension is below one 32-wide k-pass"));
}

#[test]
fn status_comes_from_its_setting() {
    assert_eq!(SimpleIndexStatus::from_setting(Some("enabled")), SimpleIndexStatus::Enabled);
    assert_eq!(SimpleIndexStatus::from_setting(Some("disabled")), SimpleIndexStatus::Disabled);
    assert_eq!(SimpleIndexStatus::from_setting(Some("Enabled")), SimpleIndexStatus::Auto);
    assert_eq!(SimpleIndexStatus::from_setting(Some("")), SimpleIndexStatus::Auto);
    assert_eq!(SimpleIndexStatus::from_setting(None), SimpleIndexStatus::Auto);
}

#[test]
fn settings_fall_back_to_their_defaults() {
    assert_eq!(positive_setting(Some("40"), 15), 40);
    assert_eq!(positive_setting(Some("+40"), 15), 40);
    assert_eq!(positive_setting(Some("007"), 15), 7);
    for bad in ["", "+", "0", "-3", " 4", "4 ", "1_000", "0x10", "99999999999999999999999"] {
        assert_eq!(positive_setting(Some(bad), 15), 15, "{bad:?}");
    }
    assert_eq!(positive_setting(Some(&usize::MAX.to_string()), 15), usize::MAX);
    assert_eq!(positive_setting(None, 15), 15);
    assert_eq!(
        ApproxAssignParams::from_settings(None, Some("zero"), Some("24")),
        ApproxAssignParams { ef: 15, ef_construction: 15, num_edges: 24 }
    );
    assert_eq!(
        ApproxAssignParams::from_settings(Some("64"), Some("30"), None),
        ApproxAssignParams { ef: 64, ef_construction: 30, num_edges: 12 }
    );
}
