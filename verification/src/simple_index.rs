//! An approximate index over the centroids of a partitioning.
//!
//! The graph itself and the search in it are the caller's: an index is generic
//! over the graph, which one function builds and another looks up.
use crate::array::{
    all_valid, array_bytes, array_cast, array_type, array_valid, cast_to_bytes, error_text,
    length_of, list_bytes, list_rows, list_type, list_valid, list_width, lists_of, makes_lists,
    rows_of, type_of, Values,
};
use crate::assignment::{
    assignment_route, blocker_text, trains_index, AmxAvailability, ApproxAssignParams,
    SimpleIndexStatus,
};
use crate::distance::DistanceType;
use crate::element::{element_named, ElementType};
use crate::error::Error;
use crate::graph::OrderedNode;
use crate::single::Single;
use crate::text::same_text;
use arrow_array::FixedSizeListArray;
use vstd::prelude::*;

verus! {

/// The centroids that an index is over, and the distance between them.
pub enum SimpleStore {
    /// Floating-point centroids.
    Float { centroids: FixedSizeListArray, distance_type: DistanceType },
    /// Binary centroids.
    Binary { centroids: FixedSizeListArray, distance_type: DistanceType },
}

/// An index over the centroids of a partitioning.
pub struct SimpleIndex<I> {
    pub store: SimpleStore,
    pub index: I,
}

/// Which store centroids go to, if any: floating-point ones of half or single
/// precision under any distance, and bytes under the Hamming distance.
#[derive(Clone, Copy, Debug, PartialEq, Eq, Structural)]
pub enum StoreKind {
    Float,
    Binary,
    Unsupported,
}

/// Which store centroids go to.
pub open spec fn kind_of(centroid_type: ElementType, distance_type: DistanceType) -> StoreKind {
    match centroid_type {
        ElementType::Float16 => StoreKind::Float,
        ElementType::Float32 => StoreKind::Float,
        ElementType::UInt8 => if distance_type == DistanceType::Hamming {
            StoreKind::Binary
        } else {
            StoreKind::Unsupported
        },
        _ => StoreKind::Unsupported,
    }
}

/// Which store centroids go to.
pub fn store_kind(centroid_type: ElementType, distance_type: DistanceType) -> (kind: StoreKind)
    ensures
        kind == kind_of(centroid_type, distance_type),
{
    match centroid_type {
        ElementType::Float16 => StoreKind::Float,
        ElementType::Float32 => StoreKind::Float,
        ElementType::UInt8 => if distance_type == DistanceType::Hamming {
            StoreKind::Binary
        } else {
            StoreKind::Unsupported
        },
        _ => StoreKind::Unsupported,
    }
}

impl SimpleStore {
    pub open spec fn lists(self) -> FixedSizeListArray {
        match self {
            SimpleStore::Float { centroids, .. } => centroids,
            SimpleStore::Binary { centroids, .. } => centroids,
        }
    }

    pub open spec fn distance(self) -> DistanceType {
        match self {
            SimpleStore::Float { distance_type, .. } => distance_type,
            SimpleStore::Binary { distance_type, .. } => distance_type,
        }
    }

    pub open spec fn kind(self) -> StoreKind {
        match self {
            SimpleStore::Float { .. } => StoreKind::Float,
            SimpleStore::Binary { .. } => StoreKind::Binary,
        }
    }

    /// Whether a store holds the values of `centroids`, `dimension` to a vector.
    pub open spec fn holds(
        self,
        centroids: Values,
        dimension: usize,
        distance_type: DistanceType,
    ) -> bool {
        &&& self.kind() == kind_of(element_named(array_type(centroids)), distance_type)
        &&& self.distance() == distance_type
        &&& list_width(self.lists()) == dimension as i32
        &&& list_rows(self.lists()) == all_valid(
            rows_of(array_valid(centroids).len(), (dimension as i32) as int),
        )
        &&& list_type(self.lists()) == array_type(centroids)
        &&& list_valid(self.lists()) == array_valid(centroids)
        &&& list_bytes(self.lists()) == array_bytes(centroids)
    }
}

/// Whether the graph of any store can be built.
pub open spec fn builder_ready<I, Build>(build: &Build) -> bool where
    Build: Fn(&SimpleStore, usize, usize) -> Result<I, Error>,
 {
    forall|store: &SimpleStore, ef_construction: usize, num_edges: usize| #[trigger]
        call_requires(*build, (store, ef_construction, num_edges))
}

/// Whether any store can be searched for one neighbour, and a search that succeeds
/// finds one.
pub open spec fn lookup_ready<I, Lookup>(lookup: &Lookup) -> bool where
    Lookup: Fn(&I, &SimpleStore, Values, usize, usize) -> Result<Vec<OrderedNode>, Error>,
 {
    &&& forall|index: &I, store: &SimpleStore, query: Values, ef: usize| #[trigger]
        call_requires(*lookup, (index, store, query, 1usize, ef))
    &&& forall|
        index: &I,
        store: &SimpleStore,
        query: Values,
        ef: usize,
        found: Vec<OrderedNode>,
    | #[trigger]
        call_ensures(*lookup, (index, store, query, 1usize, ef), Ok(found)) ==> found@.len() > 0
}

/// Whether the index over some centroids is worth training and can be.
pub open spec fn is_wanted(
    centroids: Values,
    dimension: usize,
    distance_type: DistanceType,
    amx: AmxAvailability,
    status: SimpleIndexStatus,
) -> bool {
    let element = element_named(array_type(centroids));
    let n = array_valid(centroids).len() / (dimension as nat);
    &&& dimension > 0
    &&& trains_index(
        status,
        n,
        dimension as nat,
        blocker_text(element, n, dimension as nat, distance_type, amx),
    )
    &&& kind_of(element, distance_type) != StoreKind::Unsupported
}

impl<I> SimpleIndex<I> {
    /// Builds the index over the centroids in `store`.
    pub fn try_new<Build>(store: SimpleStore, params: ApproxAssignParams, build: &Build) -> (r:
        Result<Self, Error>) where Build: Fn(&SimpleStore, usize, usize) -> Result<I, Error>
        requires
            builder_ready(build),
        ensures
            match r {
                Ok(simple) => simple.store == store && call_ensures(
                    *build,
                    (&store, params.ef_construction, params.num_edges),
                    Ok(simple.index),
                ),
                Err(e) => call_ensures(
                    *build,
                    (&store, params.ef_construction, params.num_edges),
                    Err(e),
                ),
            },
    {
        match build(&store, params.ef_construction, params.num_edges) {
            Ok(index) => Ok(SimpleIndex { store, index }),
            Err(e) => Err(e),
        }
    }

    /// Trains an index over the centroids to speed up finding the nearest
    /// clusters, only if all conditions are met:
    ///  - the centroids are of half or single precision, or bytes with the Hamming
    ///    distance
    ///  - there are enough of them for the index to pay, or it is switched on
    ///  - the exact flat assignment is not already faster, see
    ///    [`flat_amx_assignment_blocker`]
    ///
    /// Declining leaves the caller on the flat path, which also reports a
    /// malformed shape properly.
    ///
    /// [`flat_amx_assignment_blocker`]: crate::assignment::flat_amx_assignment_blocker
    pub fn may_train_index<Build>(
        centroids: Values,
        dimension: usize,
        distance_type: DistanceType,
        amx: AmxAvailability,
        status: SimpleIndexStatus,
        params: ApproxAssignParams,
        build: &Build,
    ) -> (r: Result<Option<Self>, Error>) where
        Build: Fn(&SimpleStore, usize, usize) -> Result<I, Error>,

        requires
            builder_ready(build),
        ensures
            !is_wanted(centroids, dimension, distance_type, amx, status) ==> (r matches Ok(simple)
                && simple is None),
            is_wanted(centroids, dimension, distance_type, amx, status) ==> {
                if makes_lists(array_valid(centroids).len(), (dimension as i32) as int) {
                    exists|store: SimpleStore| #[trigger]
                        store.holds(centroids, dimension, distance_type) && match r {
                            Ok(Some(simple)) => simple.store == store && call_ensures(
                                *build,
                                (&store, params.ef_construction, params.num_edges),
                                Ok(simple.index),
                            ),
                            Ok(None) => false,
                            Err(e) => call_ensures(
                                *build,
                                (&store, params.ef_construction, params.num_edges),
                                Err(e),
                            ),
                        }
                } else {
                    r matches Err(e) && e is Arrow
                }
            },
    {
        // Guarded rather than divided by: every branch below needs the centroid
        // count, and a zero-width vector has none to index.
        if dimension == 0 {
            return Ok(None);
        }
        let num_centroids: usize = length_of(&centroids) / dimension;
        let label = type_of(&centroids);
        let element = ElementType::named(label.as_str());
        let decision = assignment_route(
            element,
            num_centroids,
            dimension,
            distance_type,
            amx,
            status,
        );
        if !decision.train_index {
            return Ok(None);
        }
        let kind = store_kind(element, distance_type);
        if kind == StoreKind::Unsupported {
            return Ok(None);
        }
        let ghost flat = centroids;
        let centroids = match lists_of(centroids, dimension as i32) {
            Err(error) => {
                return Err(Error::Arrow { message: error_text(&error) });
            },
            Ok(centroids) => centroids,
        };
        let store = if kind == StoreKind::Float {
            SimpleStore::Float { centroids, distance_type }
        } else {
            SimpleStore::Binary { centroids, distance_type }
        };
        assert(store.holds(flat, dimension, distance_type));
        match Self::try_new(store, params, build) {
            Ok(simple) => Ok(Some(simple)),
            Err(e) => Err(e),
        }
    }

    /// What a lookup searches for: the query itself, or, over binary centroids, the
    /// query cast to bytes where it is not already.
    pub open spec fn is_sought(&self, query: Values, sought: Values) -> bool {
        if self.store.kind() == StoreKind::Binary && array_type(query) != "UInt8"@ {
            array_type(sought) == "UInt8"@ && array_cast(query) == Some(
                (array_valid(sought), array_bytes(sought)),
            )
        } else {
            sought == query
        }
    }

    /// Whether a query cannot be searched for: it is over binary centroids and
    /// cannot be cast to bytes.
    pub open spec fn is_unsearchable(&self, query: Values) -> bool {
        self.store.kind() == StoreKind::Binary && array_type(query) != "UInt8"@ && array_cast(
            query,
        ) is None
    }

    /// The nearest centroid that a lookup of one neighbour finds, and its
    /// distance.
    pub fn search<Lookup>(
        &self,
        query: Values,
        params: ApproxAssignParams,
        lookup: &Lookup,
    ) -> (r: Result<(u32, Single), Error>) where
        Lookup: Fn(&I, &SimpleStore, Values, usize, usize) -> Result<Vec<OrderedNode>, Error>,

        requires
            lookup_ready(lookup),
        ensures
            self.is_unsearchable(query) ==> (r matches Err(e) && e is Index),
            !self.is_unsearchable(query) ==> exists|sought: Values| #[trigger]
                self.is_sought(query, sought) && match r {
                    Ok(nearest) => exists|found: Vec<OrderedNode>|
                        {
                            &&& #[trigger] call_ensures(
                                *lookup,
                                (&self.index, &self.store, sought, 1, params.ef),
                                Ok(found),
                            )
                            &&& nearest == (found@[0].id, found@[0].dist)
                        },
                    Err(e) => call_ensures(
                        *lookup,
                        (&self.index, &self.store, sought, 1, params.ef),
                        Err(e),
                    ),
                },
    {
        let binary: bool = match &self.store {
            SimpleStore::Float { .. } => false,
            SimpleStore::Binary { .. } => true,
        };
        let label = type_of(&query);
        let ghost asked = query;
        let sought = if binary && !same_text(label.as_str(), "UInt8") {
            match cast_to_bytes(&query) {
                Err(error) => {
                    return Err(Error::Index { message: error_text(&error) });
                },
                Ok(cast) => cast,
            }
        } else {
            query
        };
        let ghost wanted = sought;
        assert(self.is_sought(asked, wanted));
        match lookup(&self.index, &self.store, sought, 1, params.ef) {
            Err(e) => Err(e),
            Ok(found) => {
                let nearest: OrderedNode = found[0];
                Ok((nearest.id, nearest.dist))
            },
        }
    }
}

/// Centroids of half or single precision go to the floating-point store under every
/// distance, bytes go to the binary one exactly under the Hamming distance, and
/// nothing else goes to either.
pub proof fn lemma_store_by_type(
    centroid_type: ElementType,
    distance_type: DistanceType,
    kind: StoreKind,
)
    requires
        call_ensures(store_kind, (centroid_type, distance_type), kind),
    ensures
        kind is Float <==> centroid_type is Float16 || centroid_type is Float32,
        kind is Binary <==> centroid_type is UInt8 && distance_type is Hamming,
{
}

/// Whether an index is trained over centroids, said of what the caller hands over: the
/// vectors have values, the type and the distance are ones that a store takes, and the
/// index is switched on or, left open, pays where the kernel does not take the
/// centroids.
pub open spec fn is_to_be_indexed(
    label: Seq<char>,
    count: nat,
    dimension: nat,
    distance_type: DistanceType,
    amx: AmxAvailability,
    status: SimpleIndexStatus,
) -> bool {
    let n = count / dimension;
    &&& dimension > 0
    &&& label == "Float16"@ || label == "Float32"@ || (label == "UInt8"@
        && distance_type is Hamming)
    &&& status is Enabled || (status is Auto && n * dimension >= 1_000_000 && !(distance_type is Dot
        && dimension >= 32 && n >= 32 && ((label == "Float16"@ && amx.native) || (label
        == "Float32"@ && amx.rounded))))
}

proof fn lemma_labels(label: Seq<char>)
    ensures
        element_named(label) == ElementType::Float16 <==> label == "Float16"@,
        element_named(label) == ElementType::Float32 <==> label == "Float32"@,
        element_named(label) == ElementType::UInt8 <==> label == "UInt8"@,
{
    ElementType::Float16.lemma_named();
    ElementType::Float32.lemma_named();
    ElementType::UInt8.lemma_named();
}

/// An index is trained exactly where it is to be, and declined elsewhere without an
/// error. It is over the centroids as they were handed over, `dimension` to a vector:
/// in the floating-point store unless they are bytes, under the distance asked for,
/// and built with the candidates and edges asked for.
pub proof fn lemma_trains_what_it_can<I, Build>(
    centroids: Values,
    dimension: usize,
    distance_type: DistanceType,
    amx: AmxAvailability,
    status: SimpleIndexStatus,
    params: ApproxAssignParams,
    build: &Build,
    r: Result<Option<SimpleIndex<I>>, Error>,
) where Build: Fn(&SimpleStore, usize, usize) -> Result<I, Error>
    requires
        call_ensures(
            SimpleIndex::<I>::may_train_index::<Build>,
            (centroids, dimension, distance_type, amx, status, params, build),
            r,
        ),
    ensures
        ({
            let (label, count) = (array_type(centroids), array_valid(centroids).len());
            let wanted = is_to_be_indexed(
                label,
                count,
                dimension as nat,
                distance_type,
                amx,
                status,
            );
            &&& (r is Ok && r->Ok_0 is None) <==> !wanted
            &&& r matches Ok(Some(simple)) ==> {
                let (binary, lists, distance) = match simple.store {
                    SimpleStore::Float { centroids, distance_type } => (
                        false,
                        centroids,
                        distance_type,
                    ),
                    SimpleStore::Binary { centroids, distance_type } => (
                        true,
                        centroids,
                        distance_type,
                    ),
                };
                &&& binary <==> label == "UInt8"@
                &&& distance == distance_type
                &&& list_width(lists) == dimension as i32
                &&& list_rows(lists).len() * list_width(lists) == count
                &&& forall|row: int|
                    0 <= row < list_rows(lists).len() ==> #[trigger] list_rows(lists)[row]
                &&& list_type(lists) == label
                &&& list_valid(lists) == array_valid(centroids)
                &&& list_bytes(lists) == array_bytes(centroids)
                &&& call_ensures(
                    *build,
                    (&simple.store, params.ef_construction, params.num_edges),
                    Ok(simple.index),
                )
            }
            &&& wanted && 0 < dimension <= i32::MAX && count % (dimension as nat) == 0 && r is Err
                ==> exists|store: SimpleStore| #[trigger]
                call_ensures(
                    *build,
                    (&store, params.ef_construction, params.num_edges),
                    Err(r->Err_0),
                )
            &&& wanted && dimension <= i32::MAX && count % (dimension as nat) != 0
                ==> r is Err && r->Err_0 is Arrow
        }),
{
    let (label, count) = (array_type(centroids), array_valid(centroids).len());
    let width = (dimension as i32) as int;
    lemma_labels(label);
    reveal_strlit("Float16");
    reveal_strlit("Float32");
    reveal_strlit("UInt8");
    assert("Float16"@[5] != "Float32"@[5]);
    assert("UInt8"@.len() == 5 && "Float16"@.len() == 7 && "Float32"@.len() == 7);
    assert(is_wanted(centroids, dimension, distance_type, amx, status) <==> is_to_be_indexed(
        label,
        count,
        dimension as nat,
        distance_type,
        amx,
        status,
    ));
    if makes_lists(count, width) {
        assert(rows_of(count, width) * width == count) by (nonlinear_arith)
            requires
                (width > 0 && count % (width as nat) == 0 && rows_of(count, width) == count / (
                width as nat)) || (width == 0 && count == 0),
        ;
    }
}

/// A query is searched for as it is, but over binary centroids it is cast to bytes
/// where it is of another type; what cannot be cast is an error. The answer is the
/// first that the lookup of one neighbour found, or the lookup's error.
pub proof fn lemma_searches_for_the_query<I, Lookup>(
    simple: &SimpleIndex<I>,
    query: Values,
    params: ApproxAssignParams,
    lookup: &Lookup,
    r: Result<(u32, Single), Error>,
) where Lookup: Fn(&I, &SimpleStore, Values, usize, usize) -> Result<Vec<OrderedNode>, Error>
    requires
        call_ensures(
            SimpleIndex::<I>::search::<Lookup>,
            (simple, query, params, lookup),
            r,
        ),
    ensures
        ({
            let cast = simple.store is Binary && array_type(query) != "UInt8"@;
            &&& cast && array_cast(query) is None ==> (r matches Err(e) && e is Index)
            &&& !(cast && array_cast(query) is None) ==> exists|sought: Values|
                #![trigger simple.is_sought(query, sought)]
                {
                    &&& !cast ==> sought == query
                    &&& cast ==> array_type(sought) == "UInt8"@ && array_cast(query) == Some(
                        (array_valid(sought), array_bytes(sought)),
                    )
                    &&& match r {
                        Err(e) => call_ensures(
                            *lookup,
                            (&simple.index, &simple.store, sought, 1usize, params.ef),
                            Err(e),
                        ),
                        Ok((id, dist)) => exists|found: Vec<OrderedNode>|
                            {
                                &&& #[trigger] call_ensures(
                                    *lookup,
                                    (&simple.index, &simple.store, sought, 1usize, params.ef),
                                    Ok(found),
                                )
                                &&& found@[0].id == id
                                &&& found@[0].dist == dist
                            },
                    }
                }
        }),
{
}

/// An index is over the store that it is made of, with the graph that was built of that
/// store by the candidates and edges asked for, or fails as the build does.
pub proof fn lemma_indexes_its_store<I, Build>(
    store: SimpleStore,
    params: ApproxAssignParams,
    build: &Build,
    r: Result<SimpleIndex<I>, Error>,
) where Build: Fn(&SimpleStore, usize, usize) -> Result<I, Error>
    requires
        call_ensures(SimpleIndex::<I>::try_new::<Build>, (store, params, build), r),
    ensures
        exists|built: Result<I, Error>|
            {
                &&& #[trigger] call_ensures(
                    *build,
                    (&store, params.ef_construction, params.num_edges),
                    built,
                )
                &&& built is Ok <==> r is Ok
                &&& r matches Ok(simple) ==> simple.store == store && built == Ok::<I, Error>(
                    simple.index,
                )
                &&& r matches Err(e) ==> built == Err::<I, Error>(e)
            },
{
}

} // verus!
