//! Integer parts of the linear Split algorithm, which decodes a giant tour into
//! routes: the double-ended queue of candidate predecessors, and the decoding of
//! the routes from the predecessor labels that the label propagation computed.
use vstd::prelude::*;

verus! {

/// Simple deque used by the linear Split algorithms, over a fixed array of slots.
/// Cursors are signed so that the back can transiently move before the front:
/// the queue holds the slots `index_front ..= index_back`.
pub struct TrivialDeque {
    elements: Vec<usize>,
    index_front: i32,
    index_back: i32,
}

impl TrivialDeque {
    /// The slots of the queue.
    pub closed spec fn slots(&self) -> Seq<usize> {
        self.elements@
    }

    /// Position of the front element.
    pub closed spec fn front(&self) -> int {
        self.index_front as int
    }

    /// Position of the back element.
    pub closed spec fn back(&self) -> int {
        self.index_back as int
    }

    /// The cursors delimit a (possibly empty) window of the slots.
    pub open spec fn window_valid(&self) -> bool {
        0 <= self.front() <= self.back() + 1 <= self.slots().len()
    }

    /// The elements currently in the queue, front first.
    pub open spec fn contents(&self) -> Seq<usize> {
        self.slots().subrange(self.front(), self.back() + 1)
    }

    pub fn new(nb_elements: usize, first_node: usize) -> (q: Self)
        requires
            nb_elements >= 1,
        ensures
            q.slots() == Seq::new(nb_elements as nat, |i: int| 0usize).update(0, first_node),
            q.front() == 0,
            q.back() == 0,
            q.contents() == seq![first_node],
    {
        let mut elements: Vec<usize> = Vec::new();
        let mut i: usize = 0;
        while i < nb_elements
            invariant
                i <= nb_elements,
                elements@ == Seq::new(i as nat, |k: int| 0usize),
            decreases nb_elements - i,
        {
            elements.push(0);
            i = i + 1;
        }
        elements.set(0, first_node);
        let q = Self { elements, index_front: 0, index_back: 0 };
        assert(q.contents() =~= seq![first_node]);
        q
    }

    pub fn pop_front(&mut self)
        requires
            old(self).front() < i32::MAX,
        ensures
            final(self).front() == old(self).front() + 1,
            final(self).back() == old(self).back(),
            final(self).slots() == old(self).slots(),
            old(self).window_valid() && old(self).contents().len() >= 1 ==> final(self).contents() == old(self).contents().drop_first(),
    {
        self.index_front = self.index_front + 1;
        proof {
            if old(self).window_valid() && old(self).contents().len() >= 1 {
                assert(final(self).contents() =~= old(self).contents().drop_first());
            }
        }
    }

    pub fn pop_back(&mut self)
        requires
            old(self).back() > i32::MIN,
        ensures
            final(self).back() == old(self).back() - 1,
            final(self).front() == old(self).front(),
            final(self).slots() == old(self).slots(),
            old(self).window_valid() && old(self).contents().len() >= 1 ==> final(self).contents() == old(self).contents().drop_last(),
    {
        self.index_back = self.index_back - 1;
        proof {
            if old(self).window_valid() && old(self).contents().len() >= 1 {
                assert(final(self).contents() =~= old(self).contents().drop_last());
            }
        }
    }

    pub fn push_back(&mut self, i: usize)
        requires
            0 <= old(self).back() + 1 < old(self).slots().len(),
            old(self).back() < i32::MAX,
        ensures
            final(self).back() == old(self).back() + 1,
            final(self).front() == old(self).front(),
            final(self).slots() == old(self).slots().update(old(self).back() + 1, i),
            old(self).window_valid() ==> final(self).contents() == old(self).contents().push(i),
    {
        self.index_back = self.index_back + 1;
        let b: usize = self.index_back as usize;
        self.elements.set(b, i);
        proof {
            if old(self).window_valid() {
                assert(final(self).contents() =~= old(self).contents().push(i));
            }
        }
    }

    pub fn get_front(&self) -> (r: usize)
        requires
            0 <= self.front() < self.slots().len(),
        ensures
            r == self.slots()[self.front()],
            self.window_valid() && self.contents().len() >= 1 ==> r == self.contents()[0],
    {
        self.elements[self.index_front as usize]
    }

    pub fn get_next_front(&self) -> (r: usize)
        requires
            0 <= self.front() + 1 < self.slots().len(),
            self.front() < i32::MAX,
        ensures
            r == self.slots()[self.front() + 1],
            self.window_valid() && self.contents().len() >= 2 ==> r == self.contents()[1],
    {
        self.elements[(self.index_front + 1) as usize]
    }

    pub fn get_back(&self) -> (r: usize)
        requires
            0 <= self.back() < self.slots().len(),
        ensures
            r == self.slots()[self.back()],
            self.window_valid() && self.contents().len() >= 1 ==> r == self.contents().last(),
    {
        self.elements[self.index_back as usize]
    }

    pub fn reset(&mut self, first_node: usize)
        requires
            old(self).slots().len() >= 1,
        ensures
            final(self).slots() == old(self).slots().update(0, first_node),
            final(self).front() == 0,
            final(self).back() == 0,
            final(self).contents() == seq![first_node],
    {
        self.elements.set(0, first_node);
        self.index_back = 0;
        self.index_front = 0;
        assert(final(self).contents() =~= seq![first_node]);
    }

    pub fn size(&self) -> (r: i32)
        requires
            i32::MIN <= self.back() - self.front() <= i32::MAX,
            self.back() - self.front() < i32::MAX,
        ensures
            r == self.back() - self.front() + 1,
            self.window_valid() ==> r == self.contents().len(),
    {
        self.index_back - self.index_front + 1
    }
}

/// Row of the predecessor labels that holds the route with index `k`: the single
/// row of the unlimited-fleet Split, or row `k + 1` of the limited-fleet Split.
pub open spec fn label_row(layered: bool, k: int) -> int {
    if layered {
        k + 1
    } else {
        0
    }
}

/// Position in the giant tour where route `k` starts, found by following the
/// predecessor labels back from the end of the tour.
pub open spec fn route_boundary(
    pred: Seq<usize>,
    stride: int,
    layered: bool,
    nb_clients: int,
    nb_routes: int,
    k: int,
) -> int
    decreases nb_routes - k,
{
    if k >= nb_routes {
        nb_clients
    } else {
        pred[label_row(layered, k) * stride + route_boundary(
            pred,
            stride,
            layered,
            nb_clients,
            nb_routes,
            k + 1,
        )] as int
    }
}

/// The clients of route `k`: the stretch of the giant tour between two boundaries.
pub open spec fn decoded_route(
    chrom_t: Seq<usize>,
    pred: Seq<usize>,
    stride: int,
    layered: bool,
    nb_clients: int,
    nb_routes: int,
    k: int,
) -> Seq<usize> {
    let begin = route_boundary(pred, stride, layered, nb_clients, nb_routes, k);
    let end = route_boundary(pred, stride, layered, nb_clients, nb_routes, k + 1);
    if begin <= end {
        chrom_t.subrange(begin, end)
    } else {
        Seq::empty()
    }
}

/// The labels are usable for decoding: every label is a tour position and every
/// row that decoding may read lies inside the label array.
pub open spec fn labels_in_range(
    pred: Seq<usize>,
    stride: int,
    layered: bool,
    nb_clients: int,
    nb_routes: int,
) -> bool {
    &&& nb_clients < stride
    &&& (forall|i: int| 0 <= i < pred.len() ==> #[trigger] pred[i] <= nb_clients)
    &&& label_row(layered, nb_routes - 1) * stride + stride <= pred.len()
}

proof fn lemma_boundary_in_range(
    pred: Seq<usize>,
    stride: int,
    layered: bool,
    nb_clients: int,
    nb_routes: int,
    k: int,
)
    requires
        labels_in_range(pred, stride, layered, nb_clients, nb_routes),
        0 <= nb_clients,
        0 <= k <= nb_routes,
    ensures
        0 <= route_boundary(pred, stride, layered, nb_clients, nb_routes, k) <= nb_clients,
    decreases nb_routes - k,
{
    if k < nb_routes {
        lemma_boundary_in_range(pred, stride, layered, nb_clients, nb_routes, k + 1);
        let b = route_boundary(pred, stride, layered, nb_clients, nb_routes, k + 1);
        assert(0 <= label_row(layered, k) * stride + b < pred.len()) by (nonlinear_arith)
            requires
                0 <= k < nb_routes,
                0 <= b <= nb_clients < stride,
                label_row(layered, nb_routes - 1) * stride + stride <= pred.len(),
                label_row(layered, k) == (if layered {
                    k + 1
                } else {
                    0
                }),
                label_row(layered, nb_routes - 1) == (if layered {
                    nb_routes
                } else {
                    0
                }),
        ;
    }
}

/// Fills the routes of a solution from the predecessor labels of a Split:
/// routes `nb_routes..nb_vehicles` become empty, and route `k < nb_routes` receives
/// the stretch of the giant tour that ends where route `k + 1` begins.
/// Returns true when the decoding reached the beginning of the giant tour.
pub fn extract_routes(
    pred: &Vec<usize>,
    stride: usize,
    layered: bool,
    chrom_t: &Vec<usize>,
    nb_clients: usize,
    nb_routes: usize,
    nb_vehicles: usize,
    chrom_r: &mut Vec<Vec<usize>>,
) -> (reached_start: bool)
    requires
        1 <= nb_routes <= nb_vehicles <= old(chrom_r).len(),
        nb_clients <= chrom_t.len(),
        labels_in_range(pred@, stride as int, layered, nb_clients as int, nb_routes as int),
    ensures
        final(chrom_r).len() == old(chrom_r).len(),
        forall|k: int|
            0 <= k < nb_routes ==> (#[trigger] final(chrom_r)@[k])@ == decoded_route(
                chrom_t@,
                pred@,
                stride as int,
                layered,
                nb_clients as int,
                nb_routes as int,
                k,
            ),
        forall|k: int| nb_routes <= k < nb_vehicles ==> (#[trigger] final(chrom_r)@[k])@.len() == 0,
        forall|k: int|
            nb_vehicles <= k < old(chrom_r).len() ==> #[trigger] final(chrom_r)@[k] == old(chrom_r)@[k],
        reached_start == (route_boundary(
            pred@,
            stride as int,
            layered,
            nb_clients as int,
            nb_routes as int,
            0,
        ) == 0),
{
    let ghost n: int = nb_clients as int;
    let ghost r: int = nb_routes as int;
    let mut k: usize = nb_routes;
    while k < nb_vehicles
        invariant
            nb_routes <= k <= nb_vehicles <= chrom_r.len(),
            chrom_r.len() == old(chrom_r).len(),
            forall|q: int| nb_routes <= q < k ==> (#[trigger] chrom_r@[q])@.len() == 0,
            forall|q: int| 0 <= q < nb_routes ==> #[trigger] chrom_r@[q] == old(chrom_r)@[q],
            forall|q: int| k <= q < chrom_r.len() ==> #[trigger] chrom_r@[q] == old(chrom_r)@[q],
        decreases nb_vehicles - k,
    {
        chrom_r.set(k, Vec::new());
        k = k + 1;
    }
    let mut end: usize = nb_clients;
    let mut k: usize = nb_routes;
    while k > 0
        invariant
            k <= nb_routes <= nb_vehicles <= chrom_r.len(),
            chrom_r.len() == old(chrom_r).len(),
            nb_clients <= chrom_t.len(),
            labels_in_range(pred@, stride as int, layered, n, r),
            n == nb_clients,
            r == nb_routes,
            end == route_boundary(pred@, stride as int, layered, n, r, k as int),
            forall|q: int|
                k <= q < nb_routes ==> (#[trigger] chrom_r@[q])@ == decoded_route(
                    chrom_t@,
                    pred@,
                    stride as int,
                    layered,
                    n,
                    r,
                    q,
                ),
            forall|q: int| nb_routes <= q < nb_vehicles ==> (#[trigger] chrom_r@[q])@.len() == 0,
            forall|q: int| nb_vehicles <= q < chrom_r.len() ==> #[trigger] chrom_r@[q] == old(chrom_r)@[q],
        decreases k,
    {
        k = k - 1;
        proof {
            lemma_boundary_in_range(pred@, stride as int, layered, n, r, k as int + 1);
            lemma_boundary_in_range(pred@, stride as int, layered, n, r, k as int);
        }
        let row: usize = if layered {
            k + 1
        } else {
            0
        };
        proof {
            assert(row * stride + end < pred.len()) by (nonlinear_arith)
                requires
                    row == label_row(layered, k as int),
                    0 <= k < nb_routes,
                    0 <= end <= nb_clients < stride,
                    label_row(layered, nb_routes - 1) * stride + stride <= pred.len(),
                    label_row(layered, k as int) == (if layered {
                        k + 1
                    } else {
                        0
                    }),
                    label_row(layered, nb_routes - 1) == (if layered {
                        nb_routes as int
                    } else {
                        0
                    }),
            ;
        }
        let begin: usize = pred[row * stride + end];
        let mut route: Vec<usize> = Vec::new();
        let mut ii: usize = begin;
        while ii < end
            invariant
                begin <= nb_clients,
                end <= nb_clients <= chrom_t.len(),
                begin <= ii,
                ii <= end || begin > end,
                begin > end ==> ii == begin,
                route@ == chrom_t@.subrange(begin as int, ii as int),
            decreases end - ii,
        {
            route.push(chrom_t[ii]);
            ii = ii + 1;
            proof {
                assert(route@ =~= chrom_t@.subrange(begin as int, ii as int));
            }
        }
        proof {
            if begin <= end {
                assert(route@ =~= chrom_t@.subrange(begin as int, end as int));
            } else {
                assert(route@ =~= Seq::<usize>::empty());
            }
        }
        chrom_r.set(k, route);
        end = begin;
    }
    end == 0
}

/// When every route begins no later than it ends and the decoding reached the
/// beginning of the giant tour, the routes, read in order, are exactly the giant
/// tour: every client is visited once, in tour order.
pub proof fn lemma_routes_partition_tour(
    chrom_t: Seq<usize>,
    pred: Seq<usize>,
    stride: int,
    layered: bool,
    nb_clients: int,
    nb_routes: int,
)
    requires
        0 <= nb_clients <= chrom_t.len(),
        0 <= nb_routes,
        route_boundary(pred, stride, layered, nb_clients, nb_routes, 0) == 0,
        forall|k: int|
            0 <= k < nb_routes ==> #[trigger] route_boundary(
                pred,
                stride,
                layered,
                nb_clients,
                nb_routes,
                k,
            ) <= route_boundary(pred, stride, layered, nb_clients, nb_routes, k + 1),
    ensures
        Seq::new(
            nb_routes as nat,
            |k: int| decoded_route(chrom_t, pred, stride, layered, nb_clients, nb_routes, k),
        ).flatten() == chrom_t.subrange(0, nb_clients),
{
    lemma_suffix_routes_flatten(chrom_t, pred, stride, layered, nb_clients, nb_routes, 0);
    assert(Seq::new(
        nb_routes as nat,
        |k: int| decoded_route(chrom_t, pred, stride, layered, nb_clients, nb_routes, k),
    ) =~= Seq::new(
        (nb_routes - 0) as nat,
        |k: int| decoded_route(chrom_t, pred, stride, layered, nb_clients, nb_routes, k + 0),
    ));
}

proof fn lemma_suffix_routes_flatten(
    chrom_t: Seq<usize>,
    pred: Seq<usize>,
    stride: int,
    layered: bool,
    nb_clients: int,
    nb_routes: int,
    j: int,
)
    requires
        0 <= nb_clients <= chrom_t.len(),
        0 <= j <= nb_routes,
        0 <= route_boundary(pred, stride, layered, nb_clients, nb_routes, j),
        forall|k: int|
            0 <= k < nb_routes ==> #[trigger] route_boundary(
                pred,
                stride,
                layered,
                nb_clients,
                nb_routes,
                k,
            ) <= route_boundary(pred, stride, layered, nb_clients, nb_routes, k + 1),
    ensures
        Seq::new(
            (nb_routes - j) as nat,
            |k: int| decoded_route(chrom_t, pred, stride, layered, nb_clients, nb_routes, k + j),
        ).flatten() == chrom_t.subrange(
            route_boundary(pred, stride, layered, nb_clients, nb_routes, j),
            nb_clients,
        ),
    decreases nb_routes - j,
{
    let b = |k: int| route_boundary(pred, stride, layered, nb_clients, nb_routes, k);
    lemma_boundary_le_end(pred, stride, layered, nb_clients, nb_routes, j);
    let rest = Seq::new(
        (nb_routes - j) as nat,
        |k: int| decoded_route(chrom_t, pred, stride, layered, nb_clients, nb_routes, k + j),
    );
    if j == nb_routes {
        assert(rest =~= Seq::<Seq<usize>>::empty());
        assert(chrom_t.subrange(nb_clients, nb_clients) =~= Seq::<usize>::empty());
    } else {
        assert(b(j) <= b(j + 1));
        lemma_suffix_routes_flatten(chrom_t, pred, stride, layered, nb_clients, nb_routes, j + 1);
        lemma_boundary_le_end(pred, stride, layered, nb_clients, nb_routes, j + 1);
        let tail = Seq::new(
            (nb_routes - (j + 1)) as nat,
            |k: int|
                decoded_route(chrom_t, pred, stride, layered, nb_clients, nb_routes, k + (j + 1)),
        );
        assert(rest.drop_first() =~= tail);
        assert(rest.first() == chrom_t.subrange(b(j), b(j + 1)));
        assert(chrom_t.subrange(b(j), nb_clients) =~= chrom_t.subrange(b(j), b(j + 1))
            + chrom_t.subrange(b(j + 1), nb_clients));
    }
}

/// Boundaries never pass the end of the tour when they never decrease.
proof fn lemma_boundary_le_end(
    pred: Seq<usize>,
    stride: int,
    layered: bool,
    nb_clients: int,
    nb_routes: int,
    j: int,
)
    requires
        0 <= j <= nb_routes,
        forall|k: int|
            0 <= k < nb_routes ==> #[trigger] route_boundary(
                pred,
                stride,
                layered,
                nb_clients,
                nb_routes,
                k,
            ) <= route_boundary(pred, stride, layered, nb_clients, nb_routes, k + 1),
    ensures
        route_boundary(pred, stride, layered, nb_clients, nb_routes, j) <= nb_clients,
    decreases nb_routes - j,
{
    if j < nb_routes {
        lemma_boundary_le_end(pred, stride, layered, nb_clients, nb_routes, j + 1);
    }
}

} // verus!
