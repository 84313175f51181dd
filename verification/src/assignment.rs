//! How vectors are assigned to partitions: by the exact flat scan or by an
//! approximate index over the centroids.
use crate::distance::DistanceType;
use crate::element::ElementType;
use crate::text::{decimal, same_text};
use vstd::prelude::*;

verus! {

/// Whether the index over the centroids is left to the shape of the problem.
#[derive(Clone, Copy, Debug, PartialEq, Eq, Structural)]
pub enum SimpleIndexStatus {
    Auto,
    Enabled,
    Disabled,
}

/// The status that a setting asks for: `enabled` or `disabled`, and anything else
/// leaves it open.
pub open spec fn status_of(setting: Option<Seq<char>>) -> SimpleIndexStatus {
    if setting == Some("enabled"@) {
        SimpleIndexStatus::Enabled
    } else if setting == Some("disabled"@) {
        SimpleIndexStatus::Disabled
    } else {
        SimpleIndexStatus::Auto
    }
}

/// The text of a setting, if it is there.
pub open spec fn setting_text(setting: Option<&str>) -> Option<Seq<char>> {
    match setting {
        Some(text) => Some(text@),
        None => None,
    }
}

impl SimpleIndexStatus {
    /// The status that a setting asks for.
    pub fn from_setting(setting: Option<&str>) -> (status: SimpleIndexStatus)
        ensures
            status == status_of(setting_text(setting)),
    {
        match setting {
            Some(text) => if same_text(text, "enabled") {
                SimpleIndexStatus::Enabled
            } else if same_text(text, "disabled") {
                SimpleIndexStatus::Disabled
            } else {
                SimpleIndexStatus::Auto
            },
            None => SimpleIndexStatus::Auto,
        }
    }
}

/// Whether `c` is a decimal digit.
pub open spec fn is_digit(c: char) -> bool {
    '0' <= c && c <= '9'
}

/// The number that decimal digits write.
pub open spec fn digits_value(digits: Seq<char>) -> nat
    decreases digits.len(),
{
    if digits.len() == 0 {
        0
    } else {
        digits_value(digits.drop_last()) * 10 + (digits.last() as nat - '0' as nat) as nat
    }
}

/// A numeral without the plus sign that may lead it.
pub open spec fn unsigned(text: Seq<char>) -> Seq<char> {
    if text.len() > 0 && text[0] == '+' {
        text.skip(1)
    } else {
        text
    }
}

/// The number that a text writes: an optional plus sign and one decimal digit or
/// more, for a number that fits a machine word.
pub open spec fn number_in(text: Seq<char>) -> Option<usize> {
    let digits = unsigned(text);
    if digits.len() > 0 && (forall|p: int| 0 <= p < digits.len() ==> is_digit(#[trigger] digits[p]))
        && digits_value(digits) <= usize::MAX {
        Some(digits_value(digits) as usize)
    } else {
        None
    }
}

/// The number that a text writes, by `str::parse` to a machine word: an optional
/// plus sign and decimal digits only, with no error where the number fits.
#[verifier::external_body]
fn parse_number(text: &str) -> (n: Option<usize>)
    ensures
        n == number_in(text@),
{
    text.parse::<usize>().ok()
}

/// The value of a setting that is a positive number; what does not parse, or is
/// zero, gives the default.
pub open spec fn positive_or(setting: Option<Seq<char>>, default: usize) -> usize {
    match setting {
        Some(text) => match number_in(text) {
            Some(n) => if n > 0 {
                n
            } else {
                default
            },
            None => default,
        },
        None => default,
    }
}

/// The value of a setting that is a positive number; what does not parse, or is
/// zero, gives the default.
pub fn positive_setting(setting: Option<&str>, default: usize) -> (n: usize)
    ensures
        n == positive_or(setting_text(setting), default),
{
    match setting {
        Some(text) => match parse_number(text) {
            Some(n) => if n > 0 {
                n
            } else {
                default
            },
            None => default,
        },
        None => default,
    }
}

/// Shape of the approximate assignment path: how wide the top-1 centroid lookup
/// searches, and how rich the graph it searches is.
#[derive(Clone, Copy, Debug, PartialEq, Eq, Structural)]
pub struct ApproxAssignParams {
    pub ef: usize,
    pub ef_construction: usize,
    pub num_edges: usize,
}

/// How wide the lookup searches where nothing else is set.
pub const DEFAULT_EF: usize = 15;

/// How many candidates the graph is built from where nothing else is set.
pub const DEFAULT_EF_CONSTRUCTION: usize = 15;

/// How many edges a node of the graph has where nothing else is set.
pub const DEFAULT_NUM_EDGES: usize = 12;

impl ApproxAssignParams {
    /// The shape that three settings ask for. A setting that is not a positive
    /// number falls back to its default rather than failing an index build.
    pub fn from_settings(
        ef: Option<&str>,
        ef_construction: Option<&str>,
        num_edges: Option<&str>,
    ) -> (params: ApproxAssignParams)
        ensures
            params.ef == positive_or(setting_text(ef), DEFAULT_EF),
            params.ef_construction == positive_or(
                setting_text(ef_construction),
                DEFAULT_EF_CONSTRUCTION,
            ),
            params.num_edges == positive_or(setting_text(num_edges), DEFAULT_NUM_EDGES),
    {
        ApproxAssignParams {
            ef: positive_setting(ef, DEFAULT_EF),
            ef_construction: positive_setting(ef_construction, DEFAULT_EF_CONSTRUCTION),
            num_edges: positive_setting(num_edges, DEFAULT_NUM_EDGES),
        }
    }
}

/// How many centroid values (`num_centroids * dimension`) it takes before an
/// approximate index over the centroids pays for the cost of building it.
/// Below this the flat scan wins on its own.
pub const MIN_CENTROID_VALUES_FOR_INDEX: usize = 1_000_000;

/// Which routes onto the matrix kernel are in service, as the two kill switches
/// leave them.
#[derive(Clone, Copy, Debug, PartialEq, Eq, Structural)]
pub struct AmxAvailability {
    /// A half-precision column may use the kernel directly.
    pub native: bool,
    /// A single-precision column may be rounded onto it.
    pub rounded: bool,
}

/// Why the exact flat path is not served by the matrix kernel, or `None` when it
/// is: the first of its conditions that fails.
pub open spec fn blocker_text(
    centroid_type: ElementType,
    num_centroids: nat,
    dimension: nat,
    distance_type: DistanceType,
    amx: AmxAvailability,
) -> Option<Seq<char>> {
    if distance_type != DistanceType::Dot {
        Some("the distance type is not dot"@)
    } else if dimension < 32 {
        Some("the dimension is below one 32-wide k-pass"@)
    } else if num_centroids < 32 {
        Some("the centroid count is below one 32-centroid block"@)
    } else if centroid_type == ElementType::Float16 && amx.native {
        None
    } else if centroid_type == ElementType::Float32 && amx.rounded {
        None
    } else if centroid_type == ElementType::Float32 && amx.native {
        Some("LANCE_AMX_FP32_CAST is off"@)
    } else if centroid_type == ElementType::Float16 || centroid_type == ElementType::Float32 {
        Some(
            "AMX-FP16 is unavailable: no kernel in this build, no support on this CPU, or LANCE_DISABLE_AMX is on"@,
        )
    } else {
        Some("the centroid type is neither float16 nor float32"@)
    }
}

/// What stands between partition assignment and the exact flat path, or `None`
/// when that path is better served than an approximate lookup and nothing blocks
/// it.
///
/// The conditions are tested one after the other and the first failure wins,
/// so an operator gets one answer rather than a list.
pub fn flat_amx_assignment_blocker(
    centroid_type: ElementType,
    num_centroids: usize,
    dimension: usize,
    distance_type: DistanceType,
    amx: AmxAvailability,
) -> (r: Option<&'static str>)
    ensures
        setting_text(r) == blocker_text(
            centroid_type,
            num_centroids as nat,
            dimension as nat,
            distance_type,
            amx,
        ),
{
    if distance_type != DistanceType::Dot {
        return Some("the distance type is not dot");
    }
    if dimension < 32 {
        return Some("the dimension is below one 32-wide k-pass");
    }
    if num_centroids < 32 {
        return Some("the centroid count is below one 32-centroid block");
    }
    match centroid_type {
        ElementType::Float16 if amx.native => None,
        ElementType::Float32 if amx.rounded => None,
        // Telling the two switches apart matters: the one for single precision is
        // the arm of a measurement, and reporting it as "AMX is off" would make
        // the control arm look like a host that simply has no AMX.
        ElementType::Float32 if amx.native => Some("LANCE_AMX_FP32_CAST is off"),
        ElementType::Float16 | ElementType::Float32 => Some(
            "AMX-FP16 is unavailable: no kernel in this build, no support on this CPU, or LANCE_DISABLE_AMX is on",
        ),
        _ => Some("the centroid type is neither float16 nor float32"),
    }
}

/// Which way one round of partition assignment goes, and why.
///
/// The three routes are not interchangeable: `flat+amx` is exact and fast, `flat`
/// is exact and slower, `hnsw` is approximate.
#[derive(Clone, Copy, Debug, PartialEq, Eq)]
pub struct AssignmentRoute {
    /// Whether to train the approximate centroid index.
    pub train_index: bool,
    /// `flat+amx`, `flat` or `hnsw`.
    pub route: &'static str,
    /// Why this route rather than another.
    pub reason: &'static str,
    /// What keeps the matrix kernel out from under assignment, or `None` when it
    /// is in play. Reported even when it did not decide the route.
    pub amx_blocker: Option<&'static str>,
}

/// Whether the index over the centroids is trained: where it is switched on, or
/// where the matter is open, the centroids are enough for it to pay and something
/// blocks the exact flat path.
pub open spec fn trains_index(
    status: SimpleIndexStatus,
    num_centroids: nat,
    dimension: nat,
    blocker: Option<Seq<char>>,
) -> bool {
    match status {
        SimpleIndexStatus::Enabled => true,
        SimpleIndexStatus::Disabled => false,
        SimpleIndexStatus::Auto => num_centroids * dimension >= MIN_CENTROID_VALUES_FOR_INDEX
            && blocker is Some,
    }
}

/// The name of a route.
pub open spec fn route_text(train_index: bool, blocker: Option<Seq<char>>) -> Seq<char> {
    if train_index {
        "hnsw"@
    } else if blocker is None {
        "flat+amx"@
    } else {
        "flat"@
    }
}

/// Why a route was taken.
pub open spec fn reason_text(
    status: SimpleIndexStatus,
    num_centroids: nat,
    dimension: nat,
    blocker: Option<Seq<char>>,
) -> Seq<char> {
    match status {
        SimpleIndexStatus::Enabled => "LANCE_USE_HNSW_SPEEDUP_INDEXING=enabled"@,
        SimpleIndexStatus::Disabled => "LANCE_USE_HNSW_SPEEDUP_INDEXING=disabled"@,
        SimpleIndexStatus::Auto => if num_centroids * dimension < MIN_CENTROID_VALUES_FOR_INDEX {
            "the centroid set is below the size an approximate index pays for"@
        } else {
            match blocker {
                Some(text) => text,
                None => "the exact flat scan beats an approximate lookup on this shape"@,
            }
        },
    }
}

/// Decides an [`AssignmentRoute`].
pub fn assignment_route(
    centroid_type: ElementType,
    num_centroids: usize,
    dimension: usize,
    distance_type: DistanceType,
    amx: AmxAvailability,
    status: SimpleIndexStatus,
) -> (decision: AssignmentRoute)
    ensures
        setting_text(decision.amx_blocker) == blocker_text(
            centroid_type,
            num_centroids as nat,
            dimension as nat,
            distance_type,
            amx,
        ),
        decision.train_index == trains_index(
            status,
            num_centroids as nat,
            dimension as nat,
            setting_text(decision.amx_blocker),
        ),
        decision.route@ == route_text(decision.train_index, setting_text(decision.amx_blocker)),
        decision.reason@ == reason_text(
            status,
            num_centroids as nat,
            dimension as nat,
            setting_text(decision.amx_blocker),
        ),
{
    let amx_blocker = flat_amx_assignment_blocker(
        centroid_type,
        num_centroids,
        dimension,
        distance_type,
        amx,
    );
    // Declining to build an index is not one outcome but two, and they perform
    // very differently, so the flat routes are named apart.
    let flat_route = match amx_blocker {
        None => "flat+amx",
        Some(_) => "flat",
    };
    let pays: bool = match num_centroids.checked_mul(dimension) {
        Some(values) => values >= MIN_CENTROID_VALUES_FOR_INDEX,
        None => true,
    };
    let (train_index, route, reason) = match status {
        SimpleIndexStatus::Enabled => (true, "hnsw", "LANCE_USE_HNSW_SPEEDUP_INDEXING=enabled"),
        SimpleIndexStatus::Disabled => (
            false,
            flat_route,
            "LANCE_USE_HNSW_SPEEDUP_INDEXING=disabled",
        ),
        // Too few centroid values for the index to pay for itself, so assignment
        // stays flat whatever the kernel can do for it.
        SimpleIndexStatus::Auto => if !pays {
            (
                false,
                flat_route,
                "the centroid set is below the size an approximate index pays for",
            )
        } else {
            match amx_blocker {
                Some(blocker) => (true, "hnsw", blocker),
                None => (
                    false,
                    flat_route,
                    "the exact flat scan beats an approximate lookup on this shape",
                ),
            }
        },
    };
    AssignmentRoute { train_index, route, reason, amx_blocker }
}

/// Nothing blocks the exact flat path exactly where the distance is the dot
/// product, there is a whole pass of dimensions and a whole block of centroids,
/// and the kernel takes the centroids: half-precision ones by the native switch,
/// single-precision ones by the one for rounding.
pub proof fn lemma_nothing_blocks(
    centroid_type: ElementType,
    num_centroids: nat,
    dimension: nat,
    distance_type: DistanceType,
    amx: AmxAvailability,
)
    ensures
        blocker_text(centroid_type, num_centroids, dimension, distance_type, amx) is None <==> {
            &&& distance_type == DistanceType::Dot
            &&& dimension >= 32
            &&& num_centroids >= 32
            &&& {
                ||| centroid_type == ElementType::Float16 && amx.native
                ||| centroid_type == ElementType::Float32 && amx.rounded
            }
        },
{
}

/// Where the matter is left open, an approximate route is never taken without a
/// reason, and the reason is what blocks the exact flat path.
pub proof fn lemma_approximate_for_a_reason(
    num_centroids: nat,
    dimension: nat,
    blocker: Option<Seq<char>>,
)
    requires
        trains_index(SimpleIndexStatus::Auto, num_centroids, dimension, blocker),
    ensures
        blocker == Some(
            reason_text(SimpleIndexStatus::Auto, num_centroids, dimension, blocker),
        ),
        route_text(true, blocker) == "hnsw"@,
{
}

/// The name of a route tells whether the index is trained, and where it is not,
/// whether the exact flat path is blocked.
pub proof fn lemma_route_tells_apart(
    train_index: bool,
    blocker: Option<Seq<char>>,
    other_train_index: bool,
    other_blocker: Option<Seq<char>>,
)
    requires
        route_text(train_index, blocker) == route_text(other_train_index, other_blocker),
    ensures
        train_index == other_train_index,
        !train_index ==> blocker is None == other_blocker is None,
{
    reveal_strlit("hnsw");
    reveal_strlit("flat+amx");
    reveal_strlit("flat");
    assert("hnsw"@[0] != "flat"@[0]);
    assert("flat+amx"@.len() != "flat"@.len());
    assert("flat+amx"@.len() != "hnsw"@.len());
}

/// The index over the centroids is trained where it is switched on; and, left open,
/// exactly where there are a million centroid values or more and the kernel does not
/// take the centroids on the exact flat path.
pub proof fn lemma_trained_where_it_pays(
    centroid_type: ElementType,
    num_centroids: usize,
    dimension: usize,
    distance_type: DistanceType,
    amx: AmxAvailability,
    status: SimpleIndexStatus,
    decision: AssignmentRoute,
)
    requires
        call_ensures(
            assignment_route,
            (centroid_type, num_centroids, dimension, distance_type, amx, status),
            decision,
        ),
    ensures
        status is Enabled ==> decision.train_index,
        status is Disabled ==> !decision.train_index,
        status is Auto ==> (decision.train_index <==> num_centroids * dimension >= 1_000_000 && !(
        distance_type is Dot && dimension >= 32 && num_centroids >= 32 && ((
        centroid_type is Float16 && amx.native) || (centroid_type is Float32 && amx.rounded)))),
{
}

/// The route is named by whether the index is trained and whether the kernel takes the
/// centroids, and by nothing else.
pub proof fn lemma_route_is_named(
    centroid_type: ElementType,
    num_centroids: usize,
    dimension: usize,
    distance_type: DistanceType,
    amx: AmxAvailability,
    status: SimpleIndexStatus,
    decision: AssignmentRoute,
)
    requires
        call_ensures(
            assignment_route,
            (centroid_type, num_centroids, dimension, distance_type, amx, status),
            decision,
        ),
    ensures
        ({
            let taken = distance_type is Dot && dimension >= 32 && num_centroids >= 32 && ((
            centroid_type is Float16 && amx.native) || (centroid_type is Float32 && amx.rounded));
            &&& decision.amx_blocker is None <==> taken
            &&& decision.route@ == "hnsw"@ <==> decision.train_index
            &&& decision.route@ == "flat+amx"@ <==> !decision.train_index && taken
            &&& decision.route@ == "flat"@ <==> !decision.train_index && !taken
        }),
{
    reveal_strlit("hnsw");
    reveal_strlit("flat+amx");
    reveal_strlit("flat");
    assert("hnsw"@[0] != "flat"@[0]);
    assert("flat+amx"@.len() != "flat"@.len());
    assert("flat+amx"@.len() != "hnsw"@.len());
}

/// The reason of a route: the setting where there is one; the size where the centroids
/// are too few; else what keeps the exact flat path from the kernel, or, where nothing
/// does, that the flat scan wins.
pub proof fn lemma_route_is_reasoned(
    centroid_type: ElementType,
    num_centroids: usize,
    dimension: usize,
    distance_type: DistanceType,
    amx: AmxAvailability,
    status: SimpleIndexStatus,
    decision: AssignmentRoute,
    blocker: Option<&'static str>,
)
    requires
        call_ensures(
            assignment_route,
            (centroid_type, num_centroids, dimension, distance_type, amx, status),
            decision,
        ),
        call_ensures(
            flat_amx_assignment_blocker,
            (centroid_type, num_centroids, dimension, distance_type, amx),
            blocker,
        ),
    ensures
        decision.amx_blocker is Some <==> blocker is Some,
        blocker matches Some(text) ==> decision.amx_blocker->0@ == text@,
        status is Enabled ==> decision.reason@ == "LANCE_USE_HNSW_SPEEDUP_INDEXING=enabled"@,
        status is Disabled ==> decision.reason@ == "LANCE_USE_HNSW_SPEEDUP_INDEXING=disabled"@,
        status is Auto && num_centroids * dimension < 1_000_000 ==> decision.reason@
            == "the centroid set is below the size an approximate index pays for"@,
        status is Auto && num_centroids * dimension >= 1_000_000 ==> decision.reason@ == (
        match blocker {
            Some(text) => text@,
            None => "the exact flat scan beats an approximate lookup on this shape"@,
        }),
{
    assert(setting_text(decision.amx_blocker) == setting_text(blocker));
}

/// What is reported to block the exact flat path tells which condition failed: one
/// that does, and none that is tested before it.
pub proof fn lemma_blocker_tells_which(
    centroid_type: ElementType,
    num_centroids: usize,
    dimension: usize,
    distance_type: DistanceType,
    amx: AmxAvailability,
    blocker: Option<&'static str>,
)
    requires
        call_ensures(
            flat_amx_assignment_blocker,
            (centroid_type, num_centroids, dimension, distance_type, amx),
            blocker,
        ),
    ensures
        blocker is None <==> distance_type is Dot && dimension >= 32 && num_centroids >= 32 && ((
        centroid_type is Float16 && amx.native) || (centroid_type is Float32 && amx.rounded)),
        blocker matches Some(text) ==> {
            &&& text@ == "the distance type is not dot"@ <==> !(distance_type is Dot)
            &&& text@ == "the dimension is below one 32-wide k-pass"@ <==> distance_type is Dot
                && dimension < 32
            &&& text@ == "the centroid count is below one 32-centroid block"@
                <==> distance_type is Dot && dimension >= 32 && num_centroids < 32
            &&& text@ == "LANCE_AMX_FP32_CAST is off"@ <==> distance_type is Dot && dimension >= 32
                && num_centroids >= 32 && centroid_type is Float32 && amx.native
            &&& text@
                == "AMX-FP16 is unavailable: no kernel in this build, no support on this CPU, or LANCE_DISABLE_AMX is on"@
                <==> distance_type is Dot && dimension >= 32 && num_centroids >= 32 && !amx.native
                && (centroid_type is Float16 || centroid_type is Float32)
            &&& text@ == "the centroid type is neither float16 nor float32"@
                <==> distance_type is Dot && dimension >= 32 && num_centroids >= 32 && !(
            centroid_type is Float16 || centroid_type is Float32)
        },
{
    reveal_strlit("the distance type is not dot");
    reveal_strlit("the dimension is below one 32-wide k-pass");
    reveal_strlit("the centroid count is below one 32-centroid block");
    reveal_strlit("LANCE_AMX_FP32_CAST is off");
    reveal_strlit(
        "AMX-FP16 is unavailable: no kernel in this build, no support on this CPU, or LANCE_DISABLE_AMX is on",
    );
    reveal_strlit("the centroid type is neither float16 nor float32");
    assert("the distance type is not dot"@.len() == 28);
    assert("the dimension is below one 32-wide k-pass"@.len() == 41);
    assert("the centroid count is below one 32-centroid block"@.len() == 49);
    assert("LANCE_AMX_FP32_CAST is off"@.len() == 26);
    assert("the centroid type is neither float16 nor float32"@.len() == 48);
    assert("AMX-FP16 is unavailable: no kernel in this build, no support on this CPU, or LANCE_DISABLE_AMX is on"@.len()
        > 60);
}

/// The words of a setting switch the index on or off, and nothing else does.
pub proof fn lemma_status_is_worded(setting: Option<&str>, status: SimpleIndexStatus)
    requires
        call_ensures(SimpleIndexStatus::from_setting, (setting,), status),
    ensures
        status is Enabled <==> (setting matches Some(text) && text@ == "enabled"@),
        status is Disabled <==> (setting matches Some(text) && text@ == "disabled"@),
{
    reveal_strlit("enabled");
    reveal_strlit("disabled");
    assert("enabled"@.len() != "disabled"@.len());
}

/// The digits of a number write it.
pub proof fn lemma_decimal_is_read(n: nat)
    ensures
        decimal(n).len() > 0,
        forall|p: int| 0 <= p < decimal(n).len() ==> '0' <= #[trigger] decimal(n)[p] <= '9',
        n > 0 ==> decimal(n)[0] != '0',
        digits_value(decimal(n)) == n,
    decreases n,
{
    let text = decimal(n);
    if n < 10 {
        assert(text.drop_last() =~= Seq::<char>::empty());
        assert(digits_value(text.drop_last()) == 0);
    } else {
        lemma_decimal_is_read(n / 10);
        assert(text.drop_last() =~= decimal(n / 10));
        assert forall|p: int| 0 <= p < text.len() implies '0' <= #[trigger] text[p] <= '9' by {
            if p < text.len() - 1 {
                assert(text[p] == decimal(n / 10)[p]);
            }
        }
        assert(text[0] == decimal(n / 10)[0]);
    }
}

/// A setting that writes a positive number in decimal, with or without a plus sign, is
/// that number. One that is absent, is empty, writes zero, a number that does not fit,
/// or has anything but digits after the sign, is the default.
pub proof fn lemma_setting_is_read(setting: Option<&str>, default: usize, read: usize)
    requires
        call_ensures(positive_setting, (setting, default), read),
    ensures
        setting is None ==> read == default,
        setting matches Some(text) ==> {
            &&& forall|n: nat|
                text@ == #[trigger] decimal(n) || text@ == seq!['+'] + decimal(n) ==> read == (
                if 0 < n <= usize::MAX {
                    n as usize
                } else {
                    default
                })
            &&& text@.len() == 0 || text@ == seq!['+'] ==> read == default
            &&& (exists|p: int|
                0 <= p < text@.len() && !('0' <= #[trigger] text@[p] <= '9') && (p > 0 || text@[p]
                    != '+')) ==> read == default
        },
{
    if setting is Some {
        let text = setting->0@;
        assert forall|n: nat| text == #[trigger] decimal(n) || text == seq!['+'] + decimal(
            n,
        ) implies read == (if 0 < n <= usize::MAX {
            n as usize
        } else {
            default
        }) by {
            lemma_decimal_is_read(n);
            let digits = decimal(n);
            assert('0' <= digits[0]);
            if text == digits {
                assert(unsigned(text) == digits);
            } else {
                assert(unsigned(text) =~= digits);
            }
            assert forall|p: int| 0 <= p < digits.len() implies is_digit(#[trigger] digits[p]) by {}
        }
        if exists|p: int|
            0 <= p < text.len() && !('0' <= #[trigger] text[p] <= '9') && (p > 0 || text[p] != '+') {
            let p = choose|p: int|
                0 <= p < text.len() && !('0' <= #[trigger] text[p] <= '9') && (p > 0 || text[p]
                    != '+');
            let digits = unsigned(text);
            if text[0] == '+' {
                assert(digits[p - 1] == text[p]);
                assert(!is_digit(digits[p - 1]));
            } else {
                assert(!is_digit(digits[p]));
            }
        }
        if text == seq!['+'] {
            assert(unsigned(text).len() == 0);
        }
    }
}

/// Each of the three settings shapes what it is named after: a positive number in
/// decimal is taken as it is, and without the setting the lookup is fifteen wide, over
/// a graph of fifteen candidates and twelve edges.
pub proof fn lemma_settings_shape_the_lookup(
    ef: Option<&str>,
    ef_construction: Option<&str>,
    num_edges: Option<&str>,
    params: ApproxAssignParams,
    read_ef: usize,
    read_ef_construction: usize,
    read_num_edges: usize,
)
    requires
        call_ensures(
            ApproxAssignParams::from_settings,
            (ef, ef_construction, num_edges),
            params,
        ),
        call_ensures(positive_setting, (ef, 15usize), read_ef),
        call_ensures(positive_setting, (ef_construction, 15usize), read_ef_construction),
        call_ensures(positive_setting, (num_edges, 12usize), read_num_edges),
    ensures
        params.ef == read_ef,
        params.ef_construction == read_ef_construction,
        params.num_edges == read_num_edges,
{
}

} // verus!
