//! The executable scanner: the per-stop label store and the four steps of
//! a round. Every method's contract equates its effect with the model in
//! `scan_model`, so the scan computes exactly that function.
#![allow(non_snake_case)]

use vstd::prelude::*;

use crate::raptor_algorithm::{journey_spec, rebuild, res_view, RaptorError};
use crate::route_structs::{
    lemma_flat_index, routes_fit, stop_edges_in_range, stop_linked, valid_dataset,
    MarkedScheduledRoute, Journey, ScheduledRoute, ScheduledRoutes, Stop, Stops, TripOfJourney,
    TripType,
};
use crate::scan_model::{
    first_index_of, lab, lemma_first_index_of_unique, lemma_sum_round_nonneg,
    lemma_sum_round_update, mark_routes_spec, mark_step, mark_stops, relax_all, scan_marked,
    scan_positions, scan_route_spec, scan_write, sum_round, Label, ScanState,
};

verus! {

/// One stop's record in the label store: its label for every round and the
/// best (earliest-arrival) label seen so far, the local-pruning bound and
/// the final answer for that stop.
pub struct MultiLabels {
    pub labels: Vec<Label>,
    pub earliestLabel: Label,
}

/// The label store of one query: per-stop, per-round labels (kept
/// flattened, one slot per stop and round) plus the per-stop best label.
/// Every stop has its full row from construction, so lookups never fail
/// for a valid stop id.
pub struct MultiLabelsManager {
    pub labels: Vec<Label>,
    pub best: Vec<Label>,
    pub roundsCount: usize,
}

impl MultiLabelsManager {
    /// The flattened label table: slot `s * rounds + k` belongs to stop
    /// `s`, round `k`.
    pub open spec fn labels_view(self) -> Seq<Label> {
        self.labels@
    }

    /// The per-stop best labels.
    pub open spec fn best_view(self) -> Seq<Label> {
        self.best@
    }

    /// Rounds kept per stop.
    pub open spec fn rounds(self) -> int {
        self.roundsCount as int
    }

    /// Number of stops covered.
    pub open spec fn stops_count(self) -> int {
        self.best@.len() as int
    }

    /// The store's shape: at least one round, and a full row per stop.
    pub open spec fn wf(self) -> bool {
        &&& self.roundsCount >= 1
        &&& self.labels@.len() == self.best@.len() * (self.roundsCount as int)
    }

    /// A store of `stopsCount` rows of `roundsCount` labels, all unreached.
    pub fn new(roundsCount: usize, stopsCount: usize) -> (r: Self)
        requires
            roundsCount >= 1,
            stopsCount * roundsCount <= usize::MAX,
        ensures
            r.wf(),
            r.rounds() == roundsCount,
            r.stops_count() == stopsCount,
            r.labels_view() =~= Seq::new((stopsCount * roundsCount) as nat, |i: int| Label::Infinite),
            r.best_view() =~= Seq::new(stopsCount as nat, |s: int| Label::Infinite),
    {
        let total: usize = stopsCount * roundsCount;
        let mut labels: Vec<Label> = Vec::new();
        let mut i: usize = 0;
        while i < total
            invariant
                i <= total,
                labels@.len() == i,
                forall|q: int| 0 <= q < i ==> labels@[q] == Label::Infinite,
            decreases total - i,
        {
            labels.push(Label::Infinite);
            i = i + 1;
        }
        let mut best: Vec<Label> = Vec::new();
        let mut s: usize = 0;
        while s < stopsCount
            invariant
                s <= stopsCount,
                best@.len() == s,
                forall|q: int| 0 <= q < s ==> best@[q] == Label::Infinite,
            decreases stopsCount - s,
        {
            best.push(Label::Infinite);
            s = s + 1;
        }
        MultiLabelsManager { labels, best, roundsCount }
    }

    /// Stop `stopId`'s label for `round`.
    pub fn getRoundLabel(&self, stopId: usize, round: usize) -> (r: Label)
        requires
            self.wf(),
            stopId < self.stops_count(),
            round < self.rounds(),
        ensures
            r == lab(
                ScanState {
                    labels: self.labels_view(),
                    best: self.best_view(),
                    queue: Seq::empty(),
                },
                self.rounds(),
                stopId as int,
                round as int,
            ),
    {
        let len = self.labels.len();
        proof {
            lemma_flat_index(self.stops_count(), self.rounds(), stopId as int, round as int);
        }
        self.labels[stopId * self.roundsCount + round]
    }

    /// Stop `stopId`'s best label so far.
    pub fn bestLabel(&self, stopId: usize) -> (r: Label)
        requires
            self.wf(),
            stopId < self.stops_count(),
        ensures
            r == self.best_view()[stopId as int],
    {
        self.best[stopId]
    }

    /// Stop `stopId`'s whole record, copied out.
    pub fn get(&self, stopId: usize) -> (r: MultiLabels)
        requires
            self.wf(),
            stopId < self.stops_count(),
        ensures
            r.labels@.len() == self.rounds(),
            forall|k: int|
                0 <= k < self.rounds() ==> r.labels@[k] == self.labels_view()[stopId * self.rounds()
                    + k],
            r.earliestLabel == self.best_view()[stopId as int],
    {
        let mut row: Vec<Label> = Vec::new();
        let mut k: usize = 0;
        while k < self.roundsCount
            invariant
                k <= self.roundsCount,
                self.wf(),
                stopId < self.stops_count(),
                row@.len() == k,
                forall|q: int|
                    0 <= q < k ==> row@[q] == self.labels_view()[stopId * self.rounds() + q],
            decreases self.roundsCount - k,
        {
            row.push(self.getRoundLabel(stopId, k));
            k = k + 1;
        }
        MultiLabels { labels: row, earliestLabel: self.best[stopId] }
    }

    /// A copy of every stop's best label: the "before this round" snapshot
    /// the scheduled scan reads.
    pub fn cloneBest(&self) -> (r: Vec<Label>)
        ensures
            r@ =~= self.best_view(),
    {
        let n = self.best.len();
        let mut out: Vec<Label> = Vec::new();
        let mut s: usize = 0;
        while s < n
            invariant
                s <= n,
                n == self.best@.len(),
                out@.len() == s,
                forall|q: int| 0 <= q < s ==> out@[q] == self.best@[q],
            decreases n - s,
        {
            out.push(self.best[s]);
            s = s + 1;
        }
        out
    }

    /// Overwrite stop `stopId`'s label for `round`.
    pub fn setRoundLabel(&mut self, stopId: usize, round: usize, label: Label)
        requires
            old(self).wf(),
            stopId < old(self).stops_count(),
            round < old(self).rounds(),
        ensures
            final(self).wf(),
            final(self).rounds() == old(self).rounds(),
            final(self).stops_count() == old(self).stops_count(),
            final(self).labels_view() == old(self).labels_view().update(
                stopId * old(self).rounds() + round,
                label,
            ),
            final(self).best_view() == old(self).best_view(),
    {
        let len = self.labels.len();
        proof {
            lemma_flat_index(self.stops_count(), self.rounds(), stopId as int, round as int);
        }
        let idx = stopId * self.roundsCount + round;
        self.labels.set(idx, label);
    }

    /// Replace stop `stopId`'s best label by `candidate` iff the candidate
    /// arrives strictly earlier: the best label only ever moves earlier.
    pub fn updateBest(&mut self, stopId: usize, candidate: Label)
        requires
            old(self).wf(),
            stopId < old(self).stops_count(),
        ensures
            final(self).wf(),
            final(self).rounds() == old(self).rounds(),
            final(self).stops_count() == old(self).stops_count(),
            final(self).labels_view() == old(self).labels_view(),
            final(self).best_view() == (if candidate.time() < old(self).best_view()[stopId
                as int].time() {
                old(self).best_view().update(stopId as int, candidate)
            } else {
                old(self).best_view()
            }),
    {
        let cur = self.best[stopId];
        if candidate.isEarlierThan(&cur) {
            self.best.set(stopId, candidate);
        } else {
            proof {
                assert(self.best_view() =~= old(self).best_view());
            }
        }
    }
}

/// `o` is either empty or a marked-route entry whose indices resolve in
/// a dataset of `n` stops: the route exists, its earliest-reachable stop
/// exists, and the recorded position is that stop's slot in the route's
/// pattern.
pub open spec fn entry_ok_opt(
    o: Option<MarkedScheduledRoute>,
    n: int,
    routes: Seq<ScheduledRoute>,
) -> bool {
    match o {
        Some(m) => {
            &&& (m.route as int) < routes.len()
            &&& (m.earliestStop as int) < n
            &&& (m.earliestStopEquivalentIndex as int) < routes[m.route as int].stopsId@.len()
            &&& routes[m.route as int].stopsId@[m.earliestStopEquivalentIndex as int]
                == m.earliestStop
        },
        None => true,
    }
}

/// Every slot of the marked-route table resolves in the dataset.
pub open spec fn valid_marked(
    marked: Seq<Option<MarkedScheduledRoute>>,
    n: int,
    routes: Seq<ScheduledRoute>,
) -> bool {
    forall|r: int| 0 <= r < marked.len() ==> entry_ok_opt(#[trigger] marked[r], n, routes)
}

/// The scanner of one query: owns the query's label store and remembers
/// the target stop for target pruning. The read-only dataset is handed to
/// each step.
pub struct RaptorScannerSC {
    pub multiLabelsManager: MultiLabelsManager,
    pub targetStop: usize,
}

impl RaptorScannerSC {
    /// The scan state this scanner holds, alongside the marked-stop queue
    /// its caller drives.
    pub open spec fn st(self, queue: Seq<usize>) -> ScanState {
        ScanState {
            labels: self.multiLabelsManager.labels_view(),
            best: self.multiLabelsManager.best_view(),
            queue,
        }
    }

    /// Store shaped to the dataset and a target inside it.
    pub open spec fn wf(self) -> bool {
        &&& self.multiLabelsManager.wf()
        &&& (self.targetStop as int) < self.multiLabelsManager.stops_count()
    }

    /// Rounds kept per stop.
    pub open spec fn rounds(self) -> int {
        self.multiLabelsManager.rounds()
    }

    /// Number of stops covered.
    pub open spec fn stops_count(self) -> int {
        self.multiLabelsManager.stops_count()
    }

    /// A fresh scanner: every label unreached but round 0 at the departure
    /// stop, which holds the departure label, also as that stop's best.
    pub fn new(
        roundsCount: usize,
        departureTime: u64,
        departureStopId: usize,
        stopsCount: usize,
        targetStop: usize,
    ) -> (r: Self)
        requires
            roundsCount >= 1,
            stopsCount * roundsCount <= usize::MAX,
            departureStopId < stopsCount,
            targetStop < stopsCount,
        ensures
            r.wf(),
            r.rounds() == roundsCount,
            r.stops_count() == stopsCount,
            r.targetStop == targetStop,
            r.multiLabelsManager.labels_view() =~= Seq::new(
                (stopsCount * roundsCount) as nat,
                |i: int| Label::Infinite,
            ).update(departureStopId * (roundsCount as int), Label::DepartureLabel(departureTime)),
            r.multiLabelsManager.best_view() =~= Seq::new(
                stopsCount as nat,
                |s: int| Label::Infinite,
            ).update(departureStopId as int, Label::DepartureLabel(departureTime)),
    {
        let mut mlm = MultiLabelsManager::new(roundsCount, stopsCount);
        mlm.setRoundLabel(departureStopId, 0, Label::DepartureLabel(departureTime));
        mlm.updateBest(departureStopId, Label::DepartureLabel(departureTime));
        RaptorScannerSC { multiLabelsManager: mlm, targetStop }
    }

    /// The scan is complete once a round has marked no stop.
    pub fn isScanCompleted(&self, markedStops: &Vec<usize>) -> (r: bool)
        ensures
            r == (markedStops@.len() == 0),
    {
        markedStops.len() == 0
    }

    /// Route marking: derive, from the stops marked during the previous
    /// round, the table of routes to scan this round, each with its single
    /// earliest-reachable stop by the previous round's labels (first-seen
    /// wins ties). The consumed marked-stop list is cleared.
    pub fn markRoutes(
        &self,
        currentRound: usize,
        markedRoutes: &mut Vec<Option<MarkedScheduledRoute>>,
        markedStops: &mut Vec<usize>,
        stops: &Stops,
        routes: &ScheduledRoutes,
    )
        requires
            self.wf(),
            valid_dataset(stops@, routes@),
            stops@.len() == self.stops_count(),
            1 <= currentRound < self.rounds(),
            forall|t: int|
                0 <= t < old(markedStops)@.len() ==> (#[trigger] old(markedStops)@[t])
                    < stops@.len(),
        ensures
            final(markedRoutes)@ == mark_routes_spec(
                stops@,
                routes@,
                self.st(old(markedStops)@),
                self.rounds(),
                currentRound as int,
            ),
            final(markedRoutes)@.len() == routes@.len(),
            valid_marked(final(markedRoutes)@, stops@.len() as int, routes@),
            final(markedStops)@ =~= Seq::<usize>::empty(),
    {
        let ghost q = markedStops@;
        let ghost L = self.multiLabelsManager.labels_view();
        let ghost R = self.rounds();
        let ghost k = currentRound as int;
        let ghost goal = mark_routes_spec(stops@, routes@, self.st(q), R, k);

        markedRoutes.clear();
        let nr = routes.len();
        while markedRoutes.len() < nr
            invariant
                markedRoutes@.len() <= nr,
                nr == routes@.len(),
                forall|t: int| 0 <= t < markedRoutes@.len() ==> markedRoutes@[t] is None,
            decreases nr - markedRoutes@.len(),
        {
            markedRoutes.push(None);
        }
        proof {
            assert(markedRoutes@ =~= Seq::new(routes@.len(), |r: int| None));
        }

        let mut i: usize = 0;
        while i < markedStops.len()
            invariant
                self.wf(),
                valid_dataset(stops@, routes@),
                stops@.len() == self.stops_count(),
                1 <= currentRound < self.rounds(),
                R == self.rounds(),
                k == currentRound as int,
                L == self.multiLabelsManager.labels_view(),
                markedStops@ == q,
                forall|t: int| 0 <= t < q.len() ==> (#[trigger] q[t]) < stops@.len(),
                i <= q.len(),
                markedRoutes@.len() == routes@.len(),
                valid_marked(markedRoutes@, stops@.len() as int, routes@),
                mark_stops(stops@, routes@, L, R, k, markedRoutes@, q, i as int) == goal,
            decreases q.len() - i,
        {
            let stopId = markedStops[i];
            let nroutes = stops[stopId].scheduledRoutes.len();
            let mut j: usize = 0;
            while j < nroutes
                invariant
                    self.wf(),
                    valid_dataset(stops@, routes@),
                    stops@.len() == self.stops_count(),
                    1 <= currentRound < self.rounds(),
                    R == self.rounds(),
                    k == currentRound as int,
                    L == self.multiLabelsManager.labels_view(),
                    markedStops@ == q,
                    forall|t: int| 0 <= t < q.len() ==> (#[trigger] q[t]) < stops@.len(),
                    i < q.len(),
                    stopId == q[i as int],
                    nroutes == stops@[stopId as int].scheduledRoutes@.len(),
                    j <= nroutes,
                    markedRoutes@.len() == routes@.len(),
                    valid_marked(markedRoutes@, stops@.len() as int, routes@),
                    mark_stops(
                        stops@,
                        routes@,
                        L,
                        R,
                        k,
                        mark_step(
                            routes@,
                            L,
                            R,
                            k,
                            markedRoutes@,
                            stopId,
                            stops@[stopId as int],
                            j as int,
                        ),
                        q,
                        i + 1,
                    ) == goal,
                decreases nroutes - j,
            {
                let ghost mprev = markedRoutes@;
                let ghost j0 = j as int;
                let routeId = stops[stopId].scheduledRoutes[j];
                proof {
                    assert(stop_linked(stops@[stopId as int], stops@.len() as int, routes@));
                    assert(stops@[stopId as int].scheduledRoutes@[j as int] == routeId);
                }
                let eqIdx = routes[routeId].getEquivalentStopId(&stopId);
                proof {
                    lemma_first_index_of_unique(routes@[routeId as int].stopsId@, stopId,
                        eqIdx as int);
                }
                let claim = MarkedScheduledRoute {
                    earliestStop: stopId,
                    earliestStopEquivalentIndex: eqIdx,
                    route: routeId,
                };
                let cur = markedRoutes[routeId];
                match cur {
                    None => {
                        markedRoutes.set(routeId, Some(claim));
                    },
                    Some(m) => {
                        let newTime = self.multiLabelsManager.getRoundLabel(
                            stopId,
                            currentRound - 1,
                        );
                        let curTime = self.multiLabelsManager.getRoundLabel(
                            m.earliestStop,
                            currentRound - 1,
                        );
                        if newTime.isEarlierThan(&curTime) {
                            markedRoutes.set(routeId, Some(claim));
                        }
                    },
                }
                proof {
                    let stopS = stops@[stopId as int];
                    let r_int = stopS.scheduledRoutes@[j0] as int;
                    let claim_m = MarkedScheduledRoute {
                        earliestStop: stopId,
                        earliestStopEquivalentIndex: first_index_of(
                            routes@[r_int].stopsId@,
                            stopId,
                        ) as usize,
                        route: r_int as usize,
                    };
                    assert(claim_m == claim);
                    match mprev[r_int] {
                        None => {
                            assert(markedRoutes@ == mprev.update(r_int, Some(claim_m)));
                        },
                        Some(m) => {
                            if L[(stopId as int) * R + (k - 1)].time() < L[(m.earliestStop as int)
                                * R + (k - 1)].time() {
                                assert(markedRoutes@ == mprev.update(r_int, Some(claim_m)));
                            } else {
                                assert(markedRoutes@ =~= mprev.update(r_int, Some(m)));
                            }
                        },
                    }
                    assert(mark_step(routes@, L, R, k, mprev, stopId, stopS, j0) == mark_step(
                        routes@,
                        L,
                        R,
                        k,
                        markedRoutes@,
                        stopId,
                        stopS,
                        j0 + 1,
                    ));
                }
                j = j + 1;
            }
            i = i + 1;
        }
        markedStops.clear();
    }

    /// Transfer-edge relaxation for round `currentRound`: walk the stops
    /// marked this round as a queue; each outgoing edge offers its target
    /// the source's round label plus the edge's duration, and an offer that
    /// beats the target's current round label is written, pulls the best
    /// label along, and appends the target to the queue, so its own edges
    /// are relaxed within the same round.
    pub fn processNonScheduledRoutes(
        &mut self,
        currentRound: usize,
        markedStops: &mut Vec<usize>,
        stops: &Stops,
    )
        requires
            old(self).wf(),
            forall|t: int|
                0 <= t < stops@.len() ==> stop_edges_in_range(#[trigger] stops@[t], stops@.len()),
            stops@.len() == old(self).stops_count(),
            (currentRound as int) < old(self).rounds(),
            forall|t: int|
                0 <= t < old(markedStops)@.len() ==> (#[trigger] old(markedStops)@[t])
                    < stops@.len(),
        ensures
            final(self).wf(),
            final(self).rounds() == old(self).rounds(),
            final(self).stops_count() == old(self).stops_count(),
            final(self).targetStop == old(self).targetStop,
            final(self).st(final(markedStops)@) == relax_all(
                stops@,
                old(self).rounds(),
                currentRound as int,
                old(self).st(old(markedStops)@),
                0,
                0,
            ),
            forall|t: int|
                0 <= t < final(markedStops)@.len() ==> (#[trigger] final(markedStops)@[t])
                    < stops@.len(),
    {
        let ghost R = self.rounds();
        let ghost k = currentRound as int;
        let ghost n = stops@.len() as int;
        let ghost goal = relax_all(stops@, R, k, self.st(markedStops@), 0, 0);
        let ghost sum0 = sum_round(self.multiLabelsManager.labels_view(), R, k, n);

        let mut i: usize = 0;
        while i < markedStops.len()
            invariant
                self.wf(),
                self.rounds() == R,
                self.stops_count() == n,
                self.targetStop == old(self).targetStop,
                stops@.len() == n,
                R >= 1,
                0 <= k < R,
                k == currentRound as int,
                forall|t: int|
                    0 <= t < stops@.len() ==> stop_edges_in_range(
                        #[trigger] stops@[t],
                        stops@.len(),
                    ),
                forall|t: int|
                    0 <= t < markedStops@.len() ==> (#[trigger] markedStops@[t]) < stops@.len(),
                i <= markedStops@.len(),
                relax_all(stops@, R, k, self.st(markedStops@), i as int, 0) == goal,
                sum_round(self.multiLabelsManager.labels_view(), R, k, n) <= sum0,
            decreases sum_round(self.multiLabelsManager.labels_view(), R, k, n),
                markedStops@.len() - i,
        {
            let ghost qlen0 = markedStops@.len() as int;
            let ghost sum_i = sum_round(self.multiLabelsManager.labels_view(), R, k, n);
            let s = markedStops[i];
            let ne = stops[s].nonScheduledRoutes.len();
            let mut j: usize = 0;
            while j < ne
                invariant
                    self.wf(),
                    self.rounds() == R,
                    self.stops_count() == n,
                    self.targetStop == old(self).targetStop,
                    stops@.len() == n,
                    R >= 1,
                    0 <= k < R,
                    k == currentRound as int,
                    forall|t: int|
                        0 <= t < stops@.len() ==> stop_edges_in_range(
                            #[trigger] stops@[t],
                            stops@.len(),
                        ),
                    forall|t: int|
                        0 <= t < markedStops@.len() ==> (#[trigger] markedStops@[t]) < stops@.len(),
                    i < markedStops@.len(),
                    s == markedStops@[i as int],
                    s < stops@.len(),
                    ne == stops@[s as int].nonScheduledRoutes@.len(),
                    j <= ne,
                    relax_all(stops@, R, k, self.st(markedStops@), i as int, j as int) == goal,
                    sum_round(self.multiLabelsManager.labels_view(), R, k, n) <= sum_i,
                    sum_i <= sum0,
                    markedStops@.len() > qlen0 ==> sum_round(
                        self.multiLabelsManager.labels_view(),
                        R,
                        k,
                        n,
                    ) < sum_i,
                    qlen0 <= markedStops@.len(),
                decreases sum_round(self.multiLabelsManager.labels_view(), R, k, n), ne - j,
            {
                let ghost st_pre = self.st(markedStops@);
                let ghost j0 = j as int;
                let e = stops[s].nonScheduledRoutes[j];
                let srcLab = self.multiLabelsManager.getRoundLabel(s, currentRound);
                match srcLab.getArrivalTime() {
                    None => {
                        proof {
                            assert(relax_all(stops@, R, k, st_pre, i as int, j0) == relax_all(
                                stops@,
                                R,
                                k,
                                st_pre,
                                i as int,
                                j0 + 1,
                            ));
                        }
                    },
                    Some(t0) => {
                        if t0 <= u64::MAX - e.transferTime {
                            let cand = t0 + e.transferTime;
                            let tgtLab = self.multiLabelsManager.getRoundLabel(
                                e.targetStop,
                                currentRound,
                            );
                            let improves = match tgtLab.getArrivalTime() {
                                None => true,
                                Some(tt) => cand < tt,
                            };
                            if improves {
                                let newl = Label::NonScheduledRoute {
                                    arrivalTime: cand,
                                    route: e.id,
                                    boardingStop: s,
                                };
                                self.multiLabelsManager.setRoundLabel(
                                    e.targetStop,
                                    currentRound,
                                    newl,
                                );
                                self.multiLabelsManager.updateBest(e.targetStop, newl);
                                markedStops.push(e.targetStop);
                                proof {
                                    lemma_sum_round_update(
                                        st_pre.labels,
                                        R,
                                        k,
                                        n,
                                        e.targetStop as int,
                                        newl,
                                    );
                                    lemma_sum_round_nonneg(
                                        self.multiLabelsManager.labels_view(),
                                        R,
                                        k,
                                        n,
                                    );
                                    assert(self.st(markedStops@) == ScanState {
                                        labels: st_pre.labels.update(
                                            (e.targetStop as int) * R + k,
                                            newl,
                                        ),
                                        best: if newl.time() < st_pre.best[e.targetStop
                                            as int].time() {
                                            st_pre.best.update(e.targetStop as int, newl)
                                        } else {
                                            st_pre.best
                                        },
                                        queue: st_pre.queue.push(e.targetStop),
                                    });
                                    assert(relax_all(stops@, R, k, st_pre, i as int, j0)
                                        == relax_all(
                                        stops@,
                                        R,
                                        k,
                                        self.st(markedStops@),
                                        i as int,
                                        j0 + 1,
                                    ));
                                }
                            } else {
                                proof {
                                    assert(relax_all(stops@, R, k, st_pre, i as int, j0)
                                        == relax_all(stops@, R, k, st_pre, i as int, j0 + 1));
                                }
                            }
                        } else {
                            proof {
                                assert(relax_all(stops@, R, k, st_pre, i as int, j0) == relax_all(
                                    stops@,
                                    R,
                                    k,
                                    st_pre,
                                    i as int,
                                    j0 + 1,
                                ));
                            }
                        }
                    },
                }
                j = j + 1;
            }
            proof {
                lemma_sum_round_nonneg(self.multiLabelsManager.labels_view(), R, k, n);
            }
            i = i + 1;
        }
    }

    /// The scan of one marked route: board the earliest trip leaving the
    /// earliest-reachable stop after that stop's best arrival before this
    /// round, then walk the pattern forward. At each stop, write a round
    /// label when the held trip beats both the target's best arrival and
    /// the stop's current round label; and catch an earlier trip whenever
    /// a prior round reached this stop before the held trip does.
    fn scanMarkedScheduledRoute(
        &mut self,
        currentRound: usize,
        markedStops: &mut Vec<usize>,
        markedRoute: &MarkedScheduledRoute,
        priorBest: &Vec<Label>,
        routes: &ScheduledRoutes,
    )
        requires
            old(self).wf(),
            (currentRound as int) < old(self).rounds(),
            routes_fit(routes@, old(self).stops_count()),
            priorBest@.len() == old(self).stops_count(),
            entry_ok_opt(Some(*markedRoute), old(self).stops_count(), routes@),
            forall|t: int|
                0 <= t < old(markedStops)@.len() ==> (#[trigger] old(markedStops)@[t])
                    < old(self).stops_count(),
        ensures
            final(self).wf(),
            final(self).rounds() == old(self).rounds(),
            final(self).stops_count() == old(self).stops_count(),
            final(self).targetStop == old(self).targetStop,
            final(self).st(final(markedStops)@) == scan_route_spec(
                routes@,
                old(self).targetStop as int,
                priorBest@,
                old(self).rounds(),
                currentRound as int,
                *markedRoute,
                old(self).st(old(markedStops)@),
            ),
            forall|t: int|
                0 <= t < final(markedStops)@.len() ==> (#[trigger] final(markedStops)@[t])
                    < old(self).stops_count(),
    {
        let ghost R = self.rounds();
        let ghost k = currentRound as int;
        let ghost n = self.stops_count();
        let ghost prior = priorBest@;
        let ghost m = *markedRoute;
        let ghost tgt = self.targetStop as int;
        let ghost goal = scan_route_spec(routes@, tgt, prior, R, k, m, self.st(markedStops@));
        let ghost rt = routes@[m.route as int];

        let p0 = markedRoute.earliestStopEquivalentIndex;
        let priorB = priorBest[markedRoute.earliestStop];
        let mut possibleTrip: Option<usize> = match priorB.getArrivalTime() {
            None => None,
            Some(t) => routes[markedRoute.route].getEarliestTripFor(p0, t),
        };
        proof {
            if possibleTrip is Some {
                rt.lemma_earliest_trip_from_range(p0 as int, priorB.finite_time(), 0);
            }
        }
        let mut p = p0;
        while p < routes[markedRoute.route].stopsCount
            invariant
                self.wf(),
                self.rounds() == R,
                self.stops_count() == n,
                self.targetStop == old(self).targetStop,
                (self.targetStop as int) == tgt < n,
                k == currentRound as int,
                0 <= k < R,
                routes_fit(routes@, n),
                prior == priorBest@,
                prior.len() == n,
                m == *markedRoute,
                (m.route as int) < routes@.len(),
                rt == routes@[m.route as int],
                p0 == m.earliestStopEquivalentIndex,
                p0 <= p,
                possibleTrip is Some ==> (possibleTrip->0 as int) < rt.tripsCount,
                forall|t: int|
                    0 <= t < markedStops@.len() ==> (#[trigger] markedStops@[t]) < n,
                scan_positions(rt, tgt, prior, R, k, m, self.st(markedStops@), p as int, possibleTrip)
                    == goal,
            decreases rt.stopsCount - p,
        {
            let ghost st_pre = self.st(markedStops@);
            let ghost cur_pre = possibleTrip;
            let ghost p_pre = p as int;
            let sid = routes[markedRoute.route].stopsId[p];
            proof {
                assert((rt.stopsId@[p as int] as int) < n);
            }
            match possibleTrip {
                Some(t) => {
                    let arr = routes[markedRoute.route].getStopTimeOn(t, p);
                    let bestTgt = self.multiLabelsManager.bestLabel(self.targetStop);
                    let curK = self.multiLabelsManager.getRoundLabel(sid, currentRound);
                    let lt_target = match bestTgt.getArrivalTime() {
                        None => true,
                        Some(x) => arr < x,
                    };
                    let lt_round = match curK.getArrivalTime() {
                        None => true,
                        Some(x) => arr < x,
                    };
                    if lt_target && lt_round {
                        let dep = routes[markedRoute.route].getStopTimeOn(t, p0);
                        let newl = Label::ScheduledRoute {
                            arrivalTime: arr,
                            departureTime: dep,
                            route: markedRoute.route,
                            boardingStop: markedRoute.earliestStop,
                        };
                        self.multiLabelsManager.setRoundLabel(sid, currentRound, newl);
                        self.multiLabelsManager.updateBest(sid, newl);
                        markedStops.push(sid);
                        proof {
                            assert(self.st(markedStops@) == scan_write(
                                st_pre,
                                R,
                                k,
                                sid as int,
                                newl,
                            ));
                        }
                    }
                },
                None => {},
            }
            let pb = priorBest[sid];
            match pb.getArrivalTime() {
                Some(pt) => {
                    let requery = match possibleTrip {
                        Some(t) => pt < routes[markedRoute.route].getStopTimeOn(t, p),
                        None => true,
                    };
                    if requery {
                        match routes[markedRoute.route].getEarliestTripFor(p, pt) {
                            Some(t2) => {
                                proof {
                                    rt.lemma_earliest_trip_from_range(p as int, pt, 0);
                                }
                                possibleTrip = Some(t2);
                            },
                            None => {},
                        }
                    }
                },
                None => {},
            }
            proof {
                assert(scan_positions(rt, tgt, prior, R, k, m, st_pre, p_pre, cur_pre)
                    == scan_positions(
                    rt,
                    tgt,
                    prior,
                    R,
                    k,
                    m,
                    self.st(markedStops@),
                    p_pre + 1,
                    possibleTrip,
                ));
            }
            p = p + 1;
        }
    }

    /// Scan every marked route of the round, in route-id order.
    pub fn processScheduledRoutes(
        &mut self,
        currentRound: usize,
        markedRoutes: &Vec<Option<MarkedScheduledRoute>>,
        markedStops: &mut Vec<usize>,
        priorBest: &Vec<Label>,
        routes: &ScheduledRoutes,
    )
        requires
            old(self).wf(),
            (currentRound as int) < old(self).rounds(),
            routes_fit(routes@, old(self).stops_count()),
            priorBest@.len() == old(self).stops_count(),
            valid_marked(markedRoutes@, old(self).stops_count(), routes@),
            forall|t: int|
                0 <= t < old(markedStops)@.len() ==> (#[trigger] old(markedStops)@[t])
                    < old(self).stops_count(),
        ensures
            final(self).wf(),
            final(self).rounds() == old(self).rounds(),
            final(self).stops_count() == old(self).stops_count(),
            final(self).targetStop == old(self).targetStop,
            final(self).st(final(markedStops)@) == scan_marked(
                routes@,
                old(self).targetStop as int,
                priorBest@,
                old(self).rounds(),
                currentRound as int,
                markedRoutes@,
                old(self).st(old(markedStops)@),
                0,
            ),
            forall|t: int|
                0 <= t < final(markedStops)@.len() ==> (#[trigger] final(markedStops)@[t])
                    < old(self).stops_count(),
    {
        let ghost R = self.rounds();
        let ghost k = currentRound as int;
        let ghost n = self.stops_count();
        let ghost prior = priorBest@;
        let ghost tgt = self.targetStop as int;
        let ghost goal = scan_marked(
            routes@,
            tgt,
            prior,
            R,
            k,
            markedRoutes@,
            self.st(markedStops@),
            0,
        );

        let mut r: usize = 0;
        while r < markedRoutes.len()
            invariant
                self.wf(),
                self.rounds() == R,
                self.stops_count() == n,
                self.targetStop == old(self).targetStop,
                (self.targetStop as int) == tgt < n,
                k == currentRound as int,
                0 <= k < R,
                routes_fit(routes@, n),
                prior == priorBest@,
                prior.len() == n,
                valid_marked(markedRoutes@, n, routes@),
                r <= markedRoutes@.len(),
                forall|t: int|
                    0 <= t < markedStops@.len() ==> (#[trigger] markedStops@[t]) < n,
                scan_marked(routes@, tgt, prior, R, k, markedRoutes@, self.st(markedStops@), r as int)
                    == goal,
            decreases markedRoutes@.len() - r,
        {
            let ghost st_pre = self.st(markedStops@);
            match markedRoutes[r] {
                Some(m) => {
                    self.scanMarkedScheduledRoute(currentRound, markedStops, &m, priorBest, routes);
                },
                None => {},
            }
            proof {
                assert(scan_marked(routes@, tgt, prior, R, k, markedRoutes@, st_pre, r as int)
                    == scan_marked(
                    routes@,
                    tgt,
                    prior,
                    R,
                    k,
                    markedRoutes@,
                    self.st(markedStops@),
                    r as int + 1,
                ));
            }
            r = r + 1;
        }
    }

    /// Backward journey reconstruction: read the target's best label; fail
    /// with `UnreachableTarget` while it is unreached, otherwise follow
    /// boarding stops back to the departure label, prepending one segment
    /// per link. A chain that does not reach the departure label within one
    /// step per stop is a scan defect and fails with `InfiniteLabel`.
    pub fn computeBestJourney(&self) -> (r: Result<Journey, RaptorError>)
        requires
            self.wf(),
        ensures
            res_view(r) == journey_spec(
                self.multiLabelsManager.best_view(),
                self.targetStop as int,
                self.stops_count() as nat,
            ),
    {
        let ghost best = self.multiLabelsManager.best_view();
        let ghost goal = journey_spec(best, self.targetStop as int, self.stops_count() as nat);

        let n = self.multiLabelsManager.best.len();
        let targetLab = self.multiLabelsManager.bestLabel(self.targetStop);
        if let Label::Infinite = targetLab {
            return Err(RaptorError::UnreachableTarget);
        }
        let mut current = self.targetStop;
        let mut fuel = n;
        let mut acc: Vec<TripOfJourney> = Vec::new();
        proof {
            match rebuild(best, current as int, fuel as nat) {
                Ok(pre) => {
                    assert(pre + acc@ =~= pre);
                },
                Err(e) => {},
            }
        }
        loop
            invariant
                self.wf(),
                n == self.stops_count(),
                best == self.multiLabelsManager.best_view(),
                goal == journey_spec(best, self.targetStop as int, self.stops_count() as nat),
                fuel <= n,
                (match rebuild(best, current as int, fuel as nat) {
                    Ok(pre) => goal == Ok::<Seq<TripOfJourney>, RaptorError>(pre + acc@),
                    Err(e) => goal == Err::<Seq<TripOfJourney>, RaptorError>(e),
                }),
            decreases fuel,
        {
            if current >= n {
                return Err(RaptorError::InfiniteLabel);
            }
            let l = self.multiLabelsManager.bestLabel(current);
            let ghost acc_pre = acc@;
            match l {
                Label::DepartureLabel(t) => {
                    let marker = TripOfJourney {
                        tripType: TripType::Departure,
                        departureStopId: current,
                        arrivalStopId: current,
                        routeId: 0,
                        arrivalTime: t,
                        departureTime: t,
                    };
                    acc.insert(0, marker);
                    proof {
                        assert(seq![marker] + acc_pre =~= acc@);
                    }
                    return Ok(acc);
                },
                Label::ScheduledRoute { arrivalTime, departureTime, route, boardingStop } => {
                    if fuel == 0 {
                        return Err(RaptorError::InfiniteLabel);
                    }
                    let seg = TripOfJourney {
                        tripType: TripType::ScheduledRoute,
                        departureStopId: boardingStop,
                        arrivalStopId: current,
                        routeId: route,
                        arrivalTime,
                        departureTime,
                    };
                    acc.insert(0, seg);
                    proof {
                        match rebuild(best, boardingStop as int, (fuel - 1) as nat) {
                            Ok(pre2) => {
                                assert(pre2.push(seg) + acc_pre =~= pre2 + acc@);
                            },
                            Err(e) => {},
                        }
                    }
                    current = boardingStop;
                    fuel = fuel - 1;
                },
                Label::NonScheduledRoute { arrivalTime, route, boardingStop } => {
                    if fuel == 0 {
                        return Err(RaptorError::InfiniteLabel);
                    }
                    let seg = TripOfJourney {
                        tripType: TripType::NonScheduledRoute,
                        departureStopId: boardingStop,
                        arrivalStopId: current,
                        routeId: route,
                        arrivalTime,
                        departureTime: arrivalTime,
                    };
                    acc.insert(0, seg);
                    proof {
                        match rebuild(best, boardingStop as int, (fuel - 1) as nat) {
                            Ok(pre2) => {
                                assert(pre2.push(seg) + acc_pre =~= pre2 + acc@);
                            },
                            Err(e) => {},
                        }
                    }
                    current = boardingStop;
                    fuel = fuel - 1;
                },
                Label::Infinite => {
                    return Err(RaptorError::InfiniteLabel);
                },
            }
        }
    }
}

} // verus!
