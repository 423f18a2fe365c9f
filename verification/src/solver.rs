//! Finding a flip sequence that solves a ball.
//!
//! First a meet-in-the-middle search: every ball within a few flips of the
//! solved ball is recorded with its distance, and the balls within the same
//! number of flips of the given ball are looked up in that record.  Where
//! that finds nothing, the colours are put right first and the numbers are
//! then brought into place one after another by fixed three-cycles, and the
//! result is shortened by `compress_solution`.
use vstd::prelude::*;
use vstd::slice::slice_to_vec;
use fnv::{FnvHashMap, FnvHashSet};
use crate::ball::{
    colors_in_place, lemma_solved_state, number_of, numbers_in_place, solved_cells, SBall,
};
use crate::cells::{cell, extract_cell};
use crate::moves::{
    lemma_effect_determined, lemma_play_append, lemma_play_len, lemma_play_undo, lemma_reverse_flips,
    lemma_subrange_flips, no_repeat, play_cells, valid_flips,
};
use crate::search::{dfs_visits, lemma_search_visits, search_path, visit_ok, with_answers};
use crate::search::Visitor;
use crate::parity::{
    arrangement, holds_once, inversions, lemma_installed_parity, lemma_numbers_once,
    lemma_play_parity, numbers_once, perm12,
};
use crate::store::{set_contains, set_insert, table_get, table_insert, table_len};

verus! {

/// The cells of the ball whose word is `n`.
pub open spec fn cells_of(n: u64) -> Seq<u64> {
    SBall { n_cells: n }@
}

/// Whether the word `n` is the word of a ball with the cells `s` (and no high bits).
pub open spec fn is_word_of(n: u64, s: Seq<u64>) -> bool {
    cells_of(n) == s && cell(n, 12) == 0
}

/// The word of the ball with the cells `s` and no high bits.
pub open spec fn word_of(s: Seq<u64>) -> u64 {
    choose|n: u64| is_word_of(n, s)
}

/// The word of a ball without high bits is the word of its cells.
proof fn lemma_word_of(b: SBall)
    requires
        b.wf(),
    ensures
        b.n_cells == word_of(b@),
{
    assert(is_word_of(b.n_cells, b@));
    let w = word_of(b@);
    assert(is_word_of(w, b@));
    crate::ball::lemma_ball_determined(b, SBall { n_cells: w });
}

/// Whether the flips `f` lead from `origin` to the ball with the word `n`.
pub open spec fn leads_to(origin: Seq<u64>, f: Seq<usize>, n: u64) -> bool {
    valid_flips(f) && is_word_of(n, play_cells(origin, f))
}

/// Whether some `d` flips, none following itself, lead from `origin` to the
/// ball with the word `n`.
pub open spec fn reached_in(origin: Seq<u64>, n: u64, d: int) -> bool {
    exists|f: Seq<usize>| f.len() == d && no_repeat(f) && #[trigger] leads_to(origin, f, n)
}

/// A word is the word of only one ball's cells.
proof fn lemma_word_of_unique(n: u64, s: Seq<u64>)
    requires
        is_word_of(n, s),
    ensures
        word_of(s) == n,
{
    let w = word_of(s);
    assert(is_word_of(w, s));
    assert(SBall { n_cells: n }@ == SBall { n_cells: w }@);
    crate::ball::lemma_ball_determined(SBall { n_cells: n }, SBall { n_cells: w });
}

/// Records, for every ball the search reaches, the fewest flips it was
/// reached with.
pub struct DepthRecorder {
    pub table: FnvHashMap<u64, usize>,
    pub start: Ghost<Seq<u64>>,
    pub n_limit: Ghost<nat>,
    pub visits: Ghost<Seq<(Seq<usize>, bool)>>,
}

impl DepthRecorder {
    /// A recorder for a search of at most `n_depth` flips from `origin`,
    /// with an empty table.
    pub fn new(origin: &SBall, n_depth: usize) -> (r: Self)
        ensures
            r.origin() == origin@,
            r.log() == Seq::<(Seq<usize>, bool)>::empty(),
            r.limit() == n_depth,
            r.inv(),
            r.table@ == Map::<u64, usize>::empty(),
    {
        DepthRecorder { table: FnvHashMap::default(), start: Ghost(origin@), n_limit: Ghost(n_depth as nat), visits: Ghost(Seq::empty()) }
    }
}

impl Visitor for DepthRecorder {
    type Params = ();

    open spec fn origin(&self) -> Seq<u64> {
        self.start@
    }

    open spec fn params(&self) -> () {
        ()
    }

    open spec fn limit(&self) -> nat {
        self.n_limit@
    }

    open spec fn inv(&self) -> bool {
        forall|n: u64| #[trigger]
            self.table@.contains_key(n) ==> self.table@[n] <= self.n_limit@ && reached_in(
                self.start@,
                n,
                self.table@[n] as int,
            )
    }

    /// The ball of `path` is in the table, with at most as many flips.
    open spec fn seen(&self, path: Seq<usize>) -> bool {
        let w = word_of(play_cells(self.start@, path));
        self.table@.contains_key(w) && self.table@[w] <= path.len()
    }

    open spec fn done(&self) -> bool {
        false
    }

    open spec fn log(&self) -> Seq<(Seq<usize>, bool)> {
        self.visits@
    }

    fn visit(&mut self, ball: &SBall, path: &[usize]) -> (cont: bool) {
        let n = ball.n_cells;
        let len = path.len();
        let known = match table_get(&self.table, n) {
            Some(d) => Some(*d),
            None => None,
        };
        proof {
            lemma_word_of(*ball);
            assert(leads_to(self.start@, path@, n));
        }
        match known {
            None => {
                table_insert(&mut self.table, n, len);
            },
            Some(d) => {
                if len < d {
                    table_insert(&mut self.table, n, len);
                }
            },
        }
        self.visits = Ghost(self.visits@.push((path@, true)));
        true
    }
}

/// Looks each ball the search reaches up in a `DepthRecorder` table and keeps
/// the first path with the fewest flips in all.
pub struct MeetFinder {
    pub table: FnvHashMap<u64, usize>,
    pub best: Option<(usize, Vec<usize>)>,
    pub start: Ghost<Seq<u64>>,
    pub visits: Ghost<Seq<(Seq<usize>, bool)>>,
}

impl MeetFinder {
    /// A finder for a search from `origin` that looks balls up in `table`.
    pub fn new(origin: &SBall, table: FnvHashMap<u64, usize>) -> (r: Self)
        ensures
            r.origin() == origin@,
            r.log() == Seq::<(Seq<usize>, bool)>::empty(),
            r.limit() == usize::MAX,
            r.inv(),
            r.params() == table@,
            r.table@ == table@,
            r.best is None,
    {
        MeetFinder { table, best: None, start: Ghost(origin@), visits: Ghost(Seq::empty()) }
    }
}

/// The flips in all of a meeting point: those to it, and those from it.
pub open spec fn meet_total(best: Option<(usize, Vec<usize>)>) -> int {
    match best {
        Some((n, p)) => n + p@.len(),
        None => 0,
    }
}

impl Visitor for MeetFinder {
    type Params = Map<u64, usize>;

    open spec fn origin(&self) -> Seq<u64> {
        self.start@
    }

    open spec fn params(&self) -> Map<u64, usize> {
        self.table@
    }

    open spec fn limit(&self) -> nat {
        usize::MAX as nat
    }

    open spec fn inv(&self) -> bool {
        match self.best {
            Some((n, p)) => {
                let w = word_of(play_cells(self.start@, p@));
                &&& valid_flips(p@)
                &&& self.table@.contains_key(w)
                &&& self.table@[w] == n
                &&& exists|i: int| 0 <= i < self.visits@.len() && #[trigger] self.visits@[i].0 == p@
            },
            None => true,
        }
    }

    /// Where the ball of `path` is in the table, a meeting point is kept with
    /// at most as many flips in all.
    open spec fn seen(&self, path: Seq<usize>) -> bool {
        let w = word_of(play_cells(self.start@, path));
        valid_flips(path) && self.table@.contains_key(w) ==> self.best is Some && meet_total(
            self.best,
        ) <= self.table@[w] + path.len()
    }

    open spec fn done(&self) -> bool {
        false
    }

    open spec fn log(&self) -> Seq<(Seq<usize>, bool)> {
        self.visits@
    }

    /// Keeps the path where its ball is in the table and its flips in all are
    /// fewer than those of the meeting point kept so far (or none is kept
    /// yet); so of several shortest meeting points the first one stays.
    fn visit(&mut self, ball: &SBall, path: &[usize]) -> (cont: bool)
        ensures
            final(self).table@ == old(self).table@,
            cont,
            ({
                let w = word_of(play_cells(old(self).start@, path@));
                if old(self).table@.contains_key(w) && (old(self).best is None || old(self).table@[w]
                    + path@.len() < meet_total(old(self).best)) {
                    final(self).best matches Some((n, p)) && n == old(self).table@[w] && p@ == path@
                } else {
                    final(self).best == old(self).best
                }
            }),
    {
        proof {
            lemma_word_of(*ball);
        }
        match table_get(&self.table, ball.n_cells) {
            Some(d) => {
                let n_flips = *d;
                let better = match &self.best {
                    None => true,
                    Some((m, p)) => (n_flips as u128) + (path.len() as u128) < (*m as u128) + (
                    p.len() as u128),
                };
                if better {
                    self.best = Some((n_flips, slice_to_vec(path)));
                }
            },
            None => {},
        }
        let ghost old_visits = self.visits@;
        self.visits = Ghost(self.visits@.push((path@, true)));
        proof {
            if self.best is Some {
                let p = self.best.unwrap().1;
                if p@ == path@ {
                    assert(self.visits@[old_visits.len() as int].0 == p@);
                } else {
                    let i0 = choose|i0: int|
                        0 <= i0 < old_visits.len() && #[trigger] old_visits[i0].0 == p@;
                    assert(self.visits@[i0] == old_visits[i0]);
                }
            }
        }
        true
    }
}

/// Finds a path of `n_flips` flips to the ball with the word `target`, and
/// keeps it in reverse order; the search stops going deeper there.
pub struct PathFinder {
    pub target: u64,
    pub n_flips: usize,
    pub found: Option<Vec<usize>>,
    pub start: Ghost<Seq<u64>>,
    pub visits: Ghost<Seq<(Seq<usize>, bool)>>,
}

/// Reverses a flip sequence.
fn reversed(path: &[usize]) -> (r: Vec<usize>)
    ensures
        r@ == path@.reverse(),
{
    let mut r: Vec<usize> = Vec::new();
    let mut i = path.len();
    while i > 0
        invariant
            i <= path@.len(),
            r@ == path@.subrange(i as int, path@.len() as int).reverse(),
        decreases i,
    {
        i = i - 1;
        r.push(path[i]);
        proof {
            assert(r@ =~= path@.subrange(i as int, path@.len() as int).reverse());
        }
    }
    proof {
        assert(path@.subrange(0, path@.len() as int) =~= path@);
    }
    r
}

impl PathFinder {
    /// A finder for a search from `origin` for a path of `n_flips` flips to
    /// the ball with the word `target`.
    pub fn new(origin: &SBall, target: u64, n_flips: usize) -> (r: Self)
        ensures
            r.origin() == origin@,
            r.log() == Seq::<(Seq<usize>, bool)>::empty(),
            r.limit() == usize::MAX,
            r.params() == (target, n_flips),
            r.inv(),
            r.target == target,
            r.n_flips == n_flips,
            r.found is None,
    {
        PathFinder { target, n_flips, found: None, start: Ghost(origin@), visits: Ghost(Seq::empty()) }
    }
}

impl Visitor for PathFinder {
    type Params = (u64, usize);

    open spec fn origin(&self) -> Seq<u64> {
        self.start@
    }

    open spec fn params(&self) -> (u64, usize) {
        (self.target, self.n_flips)
    }

    open spec fn limit(&self) -> nat {
        usize::MAX as nat
    }

    open spec fn inv(&self) -> bool {
        match self.found {
            Some(r) => leads_to(self.start@, r@.reverse(), self.target) && valid_flips(r@)
                && r@.len() == self.n_flips,
            None => true,
        }
    }

    /// `path` is not one of `n_flips` flips to the target.
    open spec fn seen(&self, path: Seq<usize>) -> bool {
        !(path.len() == self.n_flips && word_of(play_cells(self.start@, path)) == self.target)
    }

    open spec fn done(&self) -> bool {
        self.found is Some
    }

    open spec fn log(&self) -> Seq<(Seq<usize>, bool)> {
        self.visits@
    }

    fn visit(&mut self, ball: &SBall, path: &[usize]) -> (cont: bool) {
        proof {
            lemma_word_of(*ball);
        }
        if self.n_flips == path.len() && ball.n_cells == self.target {
            let r = reversed(path);
            proof {
                assert(r@.reverse() =~= path@);
                assert forall|i: int| 0 <= i < r@.len() implies #[trigger] r@[i] < 13 by {
                    assert(r@[i] == path@[path@.len() - 1 - i]);
                }
            }
            self.found = Some(r);
            self.visits = Ghost(self.visits@.push((path@, false)));
            false
        } else {
            self.visits = Ghost(self.visits@.push((path@, true)));
            true
        }
    }
}

/// Keeps the last path it sees to a ball with all colours 0, one for an even
/// and one for an odd number of flips; the search stops going deeper once it
/// has both.
pub struct ColorFinder {
    pub even: Option<Vec<usize>>,
    pub odd: Option<Vec<usize>>,
    pub start: Ghost<Seq<u64>>,
    pub visits: Ghost<Seq<(Seq<usize>, bool)>>,
}

impl ColorFinder {
    /// A finder for a search from `origin`.
    pub fn new(origin: &SBall) -> (r: Self)
        ensures
            r.origin() == origin@,
            r.log() == Seq::<(Seq<usize>, bool)>::empty(),
            r.limit() == usize::MAX,
            r.inv(),
            r.even is None,
            r.odd is None,
    {
        ColorFinder { even: None, odd: None, start: Ghost(origin@), visits: Ghost(Seq::empty()) }
    }
}

impl Visitor for ColorFinder {
    type Params = ();

    open spec fn origin(&self) -> Seq<u64> {
        self.start@
    }

    open spec fn params(&self) -> () {
        ()
    }

    open spec fn limit(&self) -> nat {
        usize::MAX as nat
    }

    open spec fn inv(&self) -> bool {
        &&& match self.even {
            Some(p) => valid_flips(p@) && p@.len() % 2 == 0 && colors_in_place(
                play_cells(self.start@, p@),
            ),
            None => true,
        }
        &&& match self.odd {
            Some(p) => valid_flips(p@) && p@.len() % 2 == 1 && colors_in_place(
                play_cells(self.start@, p@),
            ),
            None => true,
        }
    }

    /// Where `path` puts every colour right, a path of its parity is kept.
    open spec fn seen(&self, path: Seq<usize>) -> bool {
        colors_in_place(play_cells(self.start@, path)) ==> if path.len() % 2 == 0 {
            self.even is Some
        } else {
            self.odd is Some
        }
    }

    open spec fn done(&self) -> bool {
        self.even is Some && self.odd is Some
    }

    open spec fn log(&self) -> Seq<(Seq<usize>, bool)> {
        self.visits@
    }

    /// Where the ball has every colour right, keeps the path as the one of
    /// its parity, replacing any kept before; so of each parity the last
    /// such path stays.  Answers `false` once it has both.
    fn visit(&mut self, ball: &SBall, path: &[usize]) -> (cont: bool)
        ensures
            colors_in_place(ball@) && path@.len() % 2 == 0 ==> (final(self).even matches Some(p)
                && p@ == path@) && final(self).odd == old(self).odd,
            colors_in_place(ball@) && path@.len() % 2 == 1 ==> (final(self).odd matches Some(p)
                && p@ == path@) && final(self).even == old(self).even,
            !colors_in_place(ball@) ==> final(self).even == old(self).even && final(self).odd
                == old(self).odd,
            cont == (!colors_in_place(ball@) || final(self).even is None || final(self).odd is None),
    {
        let cont = if ball.colors_correct() {
            if path.len() % 2 == 0 {
                self.even = Some(slice_to_vec(path));
            } else {
                self.odd = Some(slice_to_vec(path));
            }
            self.even.is_none() || self.odd.is_none()
        } else {
            true
        };
        self.visits = Ghost(self.visits@.push((path@, cont)));
        cont
    }
}

/// Collects, for every ball the search reaches whose word is in `wanted`, the
/// last path it was reached by.
pub struct SegmentCollector {
    pub wanted: FnvHashSet<u64>,
    pub found: FnvHashMap<u64, Vec<usize>>,
    pub start: Ghost<Seq<u64>>,
    pub n_limit: Ghost<nat>,
    pub visits: Ghost<Seq<(Seq<usize>, bool)>>,
}

impl SegmentCollector {
    /// A collector for a search of at most `n_depth` flips from `origin` for
    /// the balls in `wanted`.
    pub fn new(origin: &SBall, wanted: FnvHashSet<u64>, n_depth: usize) -> (r: Self)
        ensures
            r.origin() == origin@,
            r.log() == Seq::<(Seq<usize>, bool)>::empty(),
            r.limit() == n_depth,
            r.params() == wanted@,
            r.inv(),
            r.wanted@ == wanted@,
            r.found@ == Map::<u64, Vec<usize>>::empty(),
    {
        SegmentCollector {
            wanted,
            found: FnvHashMap::default(),
            start: Ghost(origin@),
            n_limit: Ghost(n_depth as nat),
            visits: Ghost(Seq::empty()),
        }
    }
}

impl Visitor for SegmentCollector {
    type Params = Set<u64>;

    open spec fn origin(&self) -> Seq<u64> {
        self.start@
    }

    open spec fn params(&self) -> Set<u64> {
        self.wanted@
    }

    open spec fn limit(&self) -> nat {
        self.n_limit@
    }

    open spec fn inv(&self) -> bool {
        forall|n: u64| #[trigger]
            self.found@.contains_key(n) ==> {
                &&& leads_to(self.start@, self.found@[n]@, n)
                &&& no_repeat(self.found@[n]@)
                &&& self.found@[n]@.len() <= self.n_limit@
                &&& self.wanted@.contains(n)
            }
    }

    /// Where the ball of `path` is wanted, a path to it is kept.
    open spec fn seen(&self, path: Seq<usize>) -> bool {
        let w = word_of(play_cells(self.start@, path));
        self.wanted@.contains(w) ==> self.found@.contains_key(w)
    }

    open spec fn done(&self) -> bool {
        false
    }

    open spec fn log(&self) -> Seq<(Seq<usize>, bool)> {
        self.visits@
    }

    /// Where the ball of `path` is wanted, keeps `path` for it, replacing any
    /// path kept before; so for each wanted ball the last path stays.
    fn visit(&mut self, ball: &SBall, path: &[usize]) -> (cont: bool)
        ensures
            cont,
            final(self).wanted@ == old(self).wanted@,
            ({
                let w = word_of(play_cells(old(self).start@, path@));
                if old(self).wanted@.contains(w) {
                    &&& final(self).found@.contains_key(w)
                    &&& final(self).found@[w]@ == path@
                    &&& final(self).found@.remove(w) == old(self).found@.remove(w)
                } else {
                    final(self).found@ == old(self).found@
                }
            }),
    {
        proof {
            lemma_word_of(*ball);
        }
        if set_contains(&self.wanted, ball.n_cells) {
            let p = slice_to_vec(path);
            proof {
                assert(leads_to(self.start@, p@, ball.n_cells));
            }
            table_insert(&mut self.found, ball.n_cells, p);
        }
        self.visits = Ghost(self.visits@.push((path@, true)));
        true
    }
}

/// Does flip `n_flip` on `ball` and appends it to `flips`, keeping `ball` the
/// result of `flips` from `start`.
fn push_flip(ball: &mut SBall, flips: &mut Vec<usize>, n_flip: usize, start: Ghost<Seq<u64>>)
    requires
        n_flip < 13,
        old(ball)@ == play_cells(start@, old(flips)@),
        valid_flips(old(flips)@),
    ensures
        final(ball)@ == play_cells(start@, final(flips)@),
        final(ball).high() == old(ball).high(),
        valid_flips(final(flips)@),
        final(flips)@ == old(flips)@.push(n_flip),
{
    ball.flip(n_flip);
    flips.push(n_flip);
    proof {
        assert(flips@.drop_last() =~= old(flips)@);
        assert forall|i: int| 0 <= i < flips@.len() implies #[trigger] flips@[i] < 13 by {
            if i < old(flips)@.len() {
                assert(flips@[i] == old(flips)@[i]);
            }
        }
    }
}

/// The ball that the flips `v[lo..hi]` lead to from the solved ball.
fn play_segment(v: &Vec<usize>, lo: usize, hi: usize) -> (r: SBall)
    requires
        valid_flips(v@),
        lo <= hi <= v@.len(),
    ensures
        r@ == play_cells(solved_cells(), v@.subrange(lo as int, hi as int)),
        r.wf(),
{
    let mut ball = SBall::new();
    proof {
        assert(v@.subrange(lo as int, lo as int) =~= Seq::<usize>::empty());
    }
    for j in lo..hi
        invariant
            valid_flips(v@),
            lo <= hi <= v@.len(),
            ball@ == play_cells(solved_cells(), v@.subrange(lo as int, j as int)),
            ball.wf(),
    {
        proof {
            assert(v@.subrange(lo as int, j + 1).drop_last() =~= v@.subrange(lo as int, j as int));
            assert(v@[j as int] < 13);
        }
        ball.flip(v[j]);
    }
    ball
}

/// Whether the compression table `vc` over the flips `v` is sound: each entry
/// points past its own position, and where it points further than the next
/// position, the ball of that segment has a known shorter path in `found`.
pub open spec fn compression_ok(
    vc: Seq<(usize, usize)>,
    v: Seq<usize>,
    found: Map<u64, Vec<usize>>,
) -> bool {
    &&& vc.len() == v.len()
    &&& forall|j: int|
        0 <= j < vc.len() ==> {
            &&& j < (#[trigger] vc[j]).0 <= v.len()
            &&& vc[j].0 != j + 1 ==> found.contains_key(
                word_of(play_cells(solved_cells(), v.subrange(j, vc[j].0 as int))),
            )
        }
}

/// How long the piece that replaces position `j` on is: one flip where the
/// entry points to the next position, else the known path for the segment.
pub open spec fn piece_len(
    vc: Seq<(usize, usize)>,
    v: Seq<usize>,
    found: Map<u64, Vec<usize>>,
    j: int,
) -> int {
    if vc[j].0 == j + 1 {
        1
    } else {
        found[word_of(play_cells(solved_cells(), v.subrange(j, vc[j].0 as int)))]@.len() as int
    }
}

/// How long the rest after the piece at position `j` becomes.
pub open spec fn tail_len(vc: Seq<(usize, usize)>, j: int) -> int {
    if vc[j].0 == vc.len() {
        0
    } else {
        vc[vc[j].0 as int].1 as int
    }
}

/// Whether the lengths in the compression table are bounds: from position
/// `lo` on, each entry is at least its piece and its rest, and no entry is
/// longer than the rest of the sequence.
pub open spec fn lengths_ok(
    vc: Seq<(usize, usize)>,
    v: Seq<usize>,
    found: Map<u64, Vec<usize>>,
    lo: int,
) -> bool {
    &&& forall|j: int|
        lo <= j < vc.len() ==> (#[trigger] vc[j]).1 >= piece_len(vc, v, found, j) + tail_len(vc, j)
    &&& forall|j: int| 0 <= j < vc.len() ==> (#[trigger] vc[j]).1 <= v.len() - j
}

/// One flip never leaves the solved ball as it is.
proof fn lemma_single_flip_moves(k: usize)
    requires
        k < 13,
    ensures
        play_cells(solved_cells(), seq![k]) != solved_cells(),
{
    let f = seq![k];
    assert(f.drop_last() =~= Seq::<usize>::empty());
    assert(f.last() == k);
    assert(play_cells(solved_cells(), f.drop_last()) == solved_cells());
    assert(play_cells(solved_cells(), f) == crate::ball::flip_cells(solved_cells(), k as int));
    let p = if k < 6 {
        crate::ball::pri_start_4_spec(k as int)
    } else {
        crate::ball::sec_start_lo_spec(k - 6)
    };
    crate::ball::lemma_flip_source(k as int, p);
    let q = crate::ball::flip_source(k as int, p);
    assert(play_cells(solved_cells(), f)[p] == solved_cells()[q] ^ 1);
    if play_cells(solved_cells(), f) == solved_cells() {
        crate::moves::lemma_solved_cell_distinct(q, true, p, false);
    }
}

/// The word of the ball that the flips `v[i..j]` lead to from the solved ball.
pub open spec fn segment_word(v: Seq<usize>, i: int, j: int) -> u64 {
    word_of(play_cells(solved_cells(), v.subrange(i, j)))
}

/// The words of the balls of all segments of `v`, empty ones included.
pub open spec fn segment_words(v: Seq<usize>) -> Set<u64> {
    Set::new(
        |w: u64|
            exists|i: int, j: int| 0 <= i <= j <= v.len() && w == #[trigger] segment_word(v, i, j),
    )
}

/// Whether a search of `d` flips from the solved ball reaches the ball with
/// the word `w`.
pub open spec fn reached_within(w: u64, d: int) -> bool {
    exists|q: Seq<usize>|
        search_path(q, d, 13) && #[trigger] word_of(play_cells(solved_cells(), q)) == w
}

/// Whether the segment `v[i..j]` has a shortcut within `d` flips: a search of
/// `d` flips reaches its ball, and only by paths shorter than the segment.
pub open spec fn has_shortcut(v: Seq<usize>, d: int, i: int, j: int) -> bool {
    &&& reached_within(segment_word(v, i, j), d)
    &&& forall|q: Seq<usize>|
        search_path(q, d, 13) && #[trigger] word_of(play_cells(solved_cells(), q))
            == segment_word(v, i, j) ==> q.len() < j - i
}

/// The segments listed after the rows before `lo` and row `lo` up to `hi`:
/// the empty one, every non-empty one that starts before `lo`, and those that
/// start at `lo` and end by `hi`.
spec fn listed(i: int, j: int, lo: int, hi: int, len: int) -> bool {
    ||| i == 0 && j == 0
    ||| 0 <= i < lo && i < j <= len
    ||| i == lo && i < j <= hi
}

/// Appends the flips `c` to `out`.
fn append_flips(out: &mut Vec<usize>, c: &Vec<usize>)
    requires
        valid_flips(old(out)@),
        valid_flips(c@),
    ensures
        final(out)@ == old(out)@ + c@,
        valid_flips(final(out)@),
{
    let ghost before = out@;
    for j in 0..c.len()
        invariant
            valid_flips(c@),
            valid_flips(before),
            out@ == before + c@.take(j as int),
    {
        proof {
            assert(c@[j as int] < 13);
        }
        out.push(c[j]);
        proof {
            assert(out@ =~= before + c@.take(j + 1));
        }
    }
    proof {
        assert(c@.take(c@.len() as int) =~= c@);
        assert forall|k: int| 0 <= k < out@.len() implies #[trigger] out@[k] < 13 by {
            if k < before.len() {
                assert(out@[k] == before[k]);
            } else {
                assert(out@[k] == c@[k - before.len()]);
            }
        }
    }
}

/// One piece of the compressed sequence put together: where some entry of
/// the compression table from position `i` on is shorter than the rest of
/// the sequence, the output stays short enough for the result to be shorter.
proof fn lemma_strict_step(
    vc: Seq<(usize, usize)>,
    len: int,
    i: int,
    out_before: int,
    out_after: int,
    strict0: bool,
)
    requires
        vc.len() == len,
        0 <= i < len,
        i < vc[i].0 <= len,
        vc[i].0 == i + 1 ==> out_after == out_before + 1,
        vc[i].0 != i + 1 ==> vc[i].1 < len - i,
        vc[i].1 >= out_after - out_before + (if vc[i].0 == len {
            0
        } else {
            vc[vc[i].0 as int].1 as int
        }),
        strict0 ==> out_before + vc[i].1 < len || (out_before <= i && exists|k: int|
            i <= k < len && (#[trigger] vc[k]).1 < len - k),
    ensures
        strict0 ==> out_after + (if vc[i].0 == len {
            0
        } else {
            vc[vc[i].0 as int].1 as int
        }) < len || (out_after <= vc[i].0 && exists|k: int|
            vc[i].0 <= k < len && (#[trigger] vc[k]).1 < len - k),
{
    if strict0 && !(out_before + vc[i].1 < len) {
        let k = choose|k: int| i <= k < len && (#[trigger] vc[k]).1 < len - k;
        if k > i && vc[i].0 == i + 1 {
            assert(vc[i].0 <= k < len && vc[k].1 < len - k);
        }
    }
}

/// The entry of the compression table at position `i` once the segments
/// `v[i..j]` with `j < h` have been tried: where the rest from `i` on goes
/// next, and how long it becomes.  It starts as the single flip at `i` with
/// the rest as it is; a segment whose ball has a path in `found` replaces it
/// where that path and the rest after the segment are strictly shorter.
pub open spec fn table_row(v: Seq<usize>, found: Map<u64, Vec<usize>>, i: int, h: int) -> (int, int)
    decreases v.len() - i, h - i,
{
    if h <= i + 1 || i < 0 || h > v.len() {
        (i + 1, v.len() - i)
    } else {
        let prev = table_row(v, found, i, h - 1);
        let w = segment_word(v, i, h - 1);
        let tail = table_row(v, found, h - 1, v.len() as int).1;
        if found.contains_key(w) && prev.1 > found[w]@.len() + tail {
            (h - 1, found[w]@.len() + tail)
        } else {
            prev
        }
    }
}

/// The flips that the compression table gives from position `i` on: at each
/// position, the single flip where the entry goes to the next position, else
/// the path in `found` for the segment up to where it goes.
pub open spec fn compressed_from(v: Seq<usize>, found: Map<u64, Vec<usize>>, i: int) -> Seq<usize>
    decreases v.len() - i,
{
    if i < 0 || i >= v.len() {
        Seq::empty()
    } else {
        let n = table_row(v, found, i, v.len() as int).0;
        if n <= i || n > v.len() {
            Seq::empty()
        } else {
            let piece = if n == i + 1 {
                seq![v[i]]
            } else {
                found[segment_word(v, i, n)]@
            };
            piece + compressed_from(v, found, n)
        }
    }
}

/// Whether `found` holds a path for the ball of the segment `v[i..j]` that
/// is shorter than the segment.
pub open spec fn shortcut_in(v: Seq<usize>, found: Map<u64, Vec<usize>>, i: int, j: int) -> bool {
    &&& found.contains_key(segment_word(v, i, j))
    &&& found[segment_word(v, i, j)]@.len() < j - i
}

/// Shortens `v` with the paths in `found`, a path from the solved ball for
/// each ball it holds.  A table holds, for each position `i`, where the rest
/// from `i` on goes next and how long it becomes; from the last position
/// down, each segment `v[i..j]` with `j` before the end whose ball has a path
/// in `found` is tried in order, and replaces the entry where it makes the
/// rest strictly shorter.  The result follows the table from position 0.
#[verifier::rlimit(100)]
#[verifier::spinoff_prover]
pub fn compress_with_paths(v: &Vec<usize>, found: &FnvHashMap<u64, Vec<usize>>) -> (r: Vec<usize>)
    requires
        valid_flips(v@),
        v@.len() >= 1,
        forall|n: u64| #[trigger]
            found@.contains_key(n) ==> leads_to(solved_cells(), found@[n]@, n),
    ensures
        r@ == compressed_from(v@, found@, 0),
        r@.len() == v@.len() ==> r@ == v@,
        valid_flips(r@),
        r@.len() <= v@.len(),
        forall|s: Seq<u64>| s.len() == 12 ==> #[trigger] play_cells(s, r@) == play_cells(s, v@),
        v@.len() == 1 ==> r@ == v@,
        (exists|i: int, j: int| 0 <= i < j < v@.len() && #[trigger] shortcut_in(v@, found@, i, j))
            ==> r@.len() < v@.len(),
{
    let len = v.len();
    // For each position, how far the best compression reaches and how long
    // the rest of the sequence becomes.
    let mut veccompress: Vec<(usize, usize)> = Vec::new();
    for i in 0..len
        invariant
            len == v@.len(),
            veccompress@.len() == i,
            forall|j: int| 0 <= j < i ==> (#[trigger] veccompress@[j]).0 == j + 1 && veccompress@[j].1 == len - j,
    {
        veccompress.push((i + 1, len - i));
    }
    let mut i_lo = len - 1;
    while i_lo > 0
        invariant
            valid_flips(v@),
            len == v@.len(),
            i_lo < len,
            compression_ok(veccompress@, v@, found@),
            lengths_ok(veccompress@, v@, found@, i_lo as int),
            forall|j: int| 0 <= j < i_lo ==> (#[trigger] veccompress@[j]).0 == j + 1 && veccompress@[j].1 == len - j,
            forall|n: u64| #[trigger]
                found@.contains_key(n) ==> leads_to(solved_cells(), found@[n]@, n),
            forall|k: int|
                0 <= k < len ==> ((#[trigger] veccompress@[k]).0 != k + 1 ==> veccompress@[k].1 < len
                    - k),
            forall|i: int, j: int|
                i_lo <= i < j < len && #[trigger] shortcut_in(v@, found@, i, j)
                    ==> veccompress@[i].1 < len - i,
            forall|j: int|
                i_lo <= j < len ==> (#[trigger] veccompress@[j]).0 == table_row(v@, found@, j, len as int).0
                    && veccompress@[j].1 == table_row(v@, found@, j, len as int).1,
        decreases i_lo,
    {
        i_lo = i_lo - 1;
        proof {
            assert(veccompress@[i_lo as int].0 == i_lo + 1 && veccompress@[i_lo as int].1 == len - i_lo);
            assert(veccompress@[i_lo + 1].1 <= len - (i_lo + 1));
        }
        for i_hi in i_lo + 1..len
            invariant
                valid_flips(v@),
                len == v@.len(),
                i_lo + 1 < len,
                compression_ok(veccompress@, v@, found@),
                lengths_ok(veccompress@, v@, found@, i_lo as int),
                forall|j: int| 0 <= j < i_lo ==> (#[trigger] veccompress@[j]).0 == j + 1 && veccompress@[j].1 == len - j,
                forall|n: u64| #[trigger]
                    found@.contains_key(n) ==> leads_to(solved_cells(), found@[n]@, n),
                forall|k: int|
                    0 <= k < len ==> ((#[trigger] veccompress@[k]).0 != k + 1 ==> veccompress@[k].1 < len
                        - k),
                forall|i: int, j: int|
                    i_lo < i < j < len && #[trigger] shortcut_in(v@, found@, i, j)
                        ==> veccompress@[i].1 < len - i,
                forall|j: int|
                    i_lo < j < i_hi && #[trigger] shortcut_in(v@, found@, i_lo as int, j)
                        ==> veccompress@[i_lo as int].1 < len - i_lo,
                forall|j: int|
                    i_lo < j < len ==> (#[trigger] veccompress@[j]).0 == table_row(v@, found@, j, len as int).0
                        && veccompress@[j].1 == table_row(v@, found@, j, len as int).1,
                veccompress@[i_lo as int].0 == table_row(v@, found@, i_lo as int, i_hi as int).0,
                veccompress@[i_lo as int].1 == table_row(v@, found@, i_lo as int, i_hi as int).1,
        {
            let ball_to_be_compressed = play_segment(v, i_lo, i_hi);
            let ghost vc_start = veccompress@;
            proof {
                lemma_word_of(ball_to_be_compressed);
                let w = ball_to_be_compressed.n_cells;
                assert(w == segment_word(v@, i_lo as int, i_hi as int));
                assert(shortcut_in(v@, found@, i_lo as int, i_hi as int) ==> found@.contains_key(w)
                    && found@[w]@.len() < i_hi - i_lo);
                assert(veccompress@[i_hi as int].1 <= len - i_hi);
            }
            match table_get(found, ball_to_be_compressed.n_cells) {
                Some(vecflip_compress) => {
                    let n_tail = if i_hi == len {
                        0
                    } else {
                        veccompress[i_hi].1
                    };
                    if (veccompress[i_lo].1 as u128) > (vecflip_compress.len() as u128) + (
                    n_tail as u128) {
                        let n_compressed_len = vecflip_compress.len() + n_tail;
                        let ghost vc_before = veccompress@;
                        veccompress.set(i_lo, (i_hi, n_compressed_len));
                        proof {
                            assert forall|j: int| 0 <= j < veccompress@.len() implies {
                                &&& j < (#[trigger] veccompress@[j]).0 <= v@.len()
                                &&& veccompress@[j].0 != j + 1 ==> found@.contains_key(
                                    word_of(
                                        play_cells(
                                            solved_cells(),
                                            v@.subrange(j, veccompress@[j].0 as int),
                                        ),
                                    ),
                                )
                            } by {
                                if j != i_lo {
                                    assert(veccompress@[j] == vc_before[j]);
                                }
                            }
                            let w = ball_to_be_compressed.n_cells;
                            let seg = v@.subrange(i_lo as int, i_hi as int);
                            if i_hi == i_lo + 1 {
                                assert(seg =~= seq![v@[i_lo as int]]);
                                assert(v@[i_lo as int] < 13);
                                lemma_single_flip_moves(v@[i_lo as int]);
                                assert(leads_to(solved_cells(), found@[w]@, w));
                                if found@[w]@.len() == 0 {
                                    assert(found@[w]@ =~= Seq::<usize>::empty());
                                    assert(play_cells(solved_cells(), found@[w]@) == solved_cells());
                                }
                            }
                            assert forall|j: int| i_lo <= j < veccompress@.len() implies (
                            #[trigger] veccompress@[j]).1 >= piece_len(
                                veccompress@,
                                v@,
                                found@,
                                j,
                            ) + tail_len(veccompress@, j) by {
                                if j != i_lo {
                                    assert(veccompress@[j] == vc_before[j]);
                                    if veccompress@[j].0 < len {
                                        assert(veccompress@[veccompress@[j].0 as int]
                                            == vc_before[vc_before[j].0 as int]);
                                    }
                                    assert(piece_len(veccompress@, v@, found@, j) == piece_len(
                                        vc_before,
                                        v@,
                                        found@,
                                        j,
                                    ));
                                } else {
                                    assert(veccompress@[i_hi as int] == vc_before[i_hi as int]);
                                }
                            }
                            assert forall|j: int| 0 <= j < veccompress@.len() implies (
                            #[trigger] veccompress@[j]).1 <= v@.len() - j by {
                                if j != i_lo {
                                    assert(veccompress@[j] == vc_before[j]);
                                }
                            }
                            assert forall|k: int|
                                0 <= k < len && (#[trigger] veccompress@[k]).0 != k + 1 implies veccompress@[k].1
                                < len - k by {
                                if k != i_lo {
                                    assert(veccompress@[k] == vc_before[k]);
                                }
                            }
                        }
                    }
                    proof {
                        assert(veccompress@[i_lo as int].1 <= vecflip_compress@.len() + n_tail);
                        assert(shortcut_in(v@, found@, i_lo as int, i_hi as int)
                            ==> veccompress@[i_lo as int].1 < len - i_lo);
                    }
                },
                None => {
                    proof {
                        assert(!shortcut_in(v@, found@, i_lo as int, i_hi as int));
                    }
                },
            }
            proof {
                assert(veccompress@[i_hi as int] == vc_start[i_hi as int]);
                let w = segment_word(v@, i_lo as int, i_hi as int);
                assert(w == ball_to_be_compressed.n_cells);
                assert(table_row(v@, found@, i_lo as int, i_hi + 1) == (if found@.contains_key(w)
                    && vc_start[i_lo as int].1 > found@[w]@.len() + vc_start[i_hi as int].1 {
                    (i_hi as int, found@[w]@.len() + vc_start[i_hi as int].1)
                } else {
                    (vc_start[i_lo as int].0 as int, vc_start[i_lo as int].1 as int)
                }));
                assert forall|j: int| i_lo < j < len implies veccompress@[j] == vc_start[j] by {}
                assert(veccompress@[i_lo as int].1 <= vc_start[i_lo as int].1);
                assert forall|i: int, j: int|
                    i_lo < i < j < len && #[trigger] shortcut_in(v@, found@, i, j) implies veccompress@[i].1
                    < len - i by {
                    assert(veccompress@[i] == vc_start[i]);
                }
            }
        }
    }
    // Put the compressed sequence together.
    let mut vecflip_solution_compressed: Vec<usize> = Vec::new();
    let mut i_compress: usize = 0;
    let ghost strict0 = exists|k: int| 0 <= k < len && (#[trigger] veccompress@[k]).1 < len - k;
    proof {
        assert(v@.take(0) =~= Seq::<usize>::empty());
        if exists|i: int, j: int|
            0 <= i < j < len && #[trigger] shortcut_in(v@, found@, i, j) {
            let (i, j) = choose|i: int, j: int|
                0 <= i < j < len && #[trigger] shortcut_in(v@, found@, i, j);
            assert(veccompress@[i].1 < len - i);
        }
    }
    while i_compress < len
        invariant
            forall|j: int|
                0 <= j < len ==> (#[trigger] veccompress@[j]).0 == table_row(v@, found@, j, len as int).0
                    && veccompress@[j].1 == table_row(v@, found@, j, len as int).1,
            vecflip_solution_compressed@ + compressed_from(v@, found@, i_compress as int)
                == compressed_from(v@, found@, 0),
            !strict0 ==> vecflip_solution_compressed@ == v@.take(i_compress as int),
            strict0 == exists|k: int| 0 <= k < len && (#[trigger] veccompress@[k]).1 < len - k,
            forall|k: int|
                0 <= k < len ==> ((#[trigger] veccompress@[k]).0 != k + 1 ==> veccompress@[k].1 < len
                    - k),
            strict0 ==> vecflip_solution_compressed@.len() + (if i_compress == len {
                0
            } else {
                veccompress@[i_compress as int].1 as int
            }) < len || (vecflip_solution_compressed@.len() <= i_compress && exists|k: int|
                i_compress <= k < len && (#[trigger] veccompress@[k]).1 < len - k),
            valid_flips(v@),
            len == v@.len(),
            i_compress <= len,
            compression_ok(veccompress@, v@, found@),
            forall|n: u64| #[trigger]
                found@.contains_key(n) ==> leads_to(solved_cells(), found@[n]@, n),
            valid_flips(vecflip_solution_compressed@),
            play_cells(solved_cells(), vecflip_solution_compressed@) == play_cells(
                solved_cells(),
                v@.take(i_compress as int),
            ),
            lengths_ok(veccompress@, v@, found@, 0),
            vecflip_solution_compressed@.len() + (if i_compress == len {
                0
            } else {
                veccompress@[i_compress as int].1 as int
            }) <= veccompress@[0].1,
        decreases len - i_compress,
    {
        let n_next = veccompress[i_compress].0;
        let ghost before = vecflip_solution_compressed@;
        let ghost x = play_cells(solved_cells(), v@.take(i_compress as int));
        let ghost seg = v@.subrange(i_compress as int, n_next as int);
        proof {
            assert(v@.take(i_compress as int) + seg =~= v@.take(n_next as int));
            lemma_play_append(solved_cells(), v@.take(i_compress as int), seg);
            lemma_play_append(solved_cells(), before, seg);
            assert(valid_flips(seg)) by {
                assert forall|k: int| 0 <= k < seg.len() implies #[trigger] seg[k] < 13 by {
                    assert(seg[k] == v@[i_compress + k]);
                }
            }
        }
        if n_next == i_compress + 1 {
            proof {
                assert(seg =~= seq![v@[i_compress as int]]);
                assert(seg.drop_last() =~= Seq::<usize>::empty());
                assert(v@[i_compress as int] < 13);
            }
            vecflip_solution_compressed.push(v[i_compress]);
            proof {
                assert(vecflip_solution_compressed@ =~= before + seg);
                if !strict0 {
                    assert(v@.take(i_compress + 1) =~= v@.take(i_compress as int) + seg);
                }
                lemma_play_append(solved_cells(), before, seg);
            }
        } else {
            let ball_to_be_compressed = play_segment(v, i_compress, n_next);
            proof {
                lemma_word_of(ball_to_be_compressed);
                assert(veccompress@[i_compress as int].1 < len - i_compress);
                assert(strict0);
            }
            match table_get(found, ball_to_be_compressed.n_cells) {
                Some(vecflip_compress) => {
                    let ghost c = vecflip_compress@;
                    proof {
                        assert(leads_to(solved_cells(), c, ball_to_be_compressed.n_cells));
                        assert(play_cells(solved_cells(), c) == play_cells(solved_cells(), seg));
                        lemma_play_len(solved_cells(), v@.take(i_compress as int));
                        lemma_effect_determined(c, seg, x);
                    }
                    append_flips(&mut vecflip_solution_compressed, vecflip_compress);
                    proof {
                        lemma_play_append(solved_cells(), before, c);
                    }
                },
                None => {
                    proof {
                        assert(false);
                    }
                },
            }
        }
        proof {
            let piece = if n_next == i_compress + 1 {
                seq![v@[i_compress as int]]
            } else {
                found@[segment_word(v@, i_compress as int, n_next as int)]@
            };
            assert(compressed_from(v@, found@, i_compress as int) == piece + compressed_from(
                v@,
                found@,
                n_next as int,
            ));
            assert(vecflip_solution_compressed@ =~= before + piece);
            assert(vecflip_solution_compressed@ + compressed_from(v@, found@, n_next as int)
                =~= before + compressed_from(v@, found@, i_compress as int));
            assert(vecflip_solution_compressed@.len() == before.len() + piece_len(
                veccompress@,
                v@,
                found@,
                i_compress as int,
            ));
            assert(veccompress@[i_compress as int].1 >= piece_len(
                veccompress@,
                v@,
                found@,
                i_compress as int,
            ) + tail_len(veccompress@, i_compress as int));
            lemma_strict_step(
                veccompress@,
                len as int,
                i_compress as int,
                before.len() as int,
                vecflip_solution_compressed@.len() as int,
                strict0,
            );
        }
        i_compress = n_next;
    }
    proof {
        assert(v@.take(len as int) =~= v@);
        assert forall|s: Seq<u64>| s.len() == 12 implies #[trigger] play_cells(
            s,
            vecflip_solution_compressed@,
        ) == play_cells(s, v@) by {
            lemma_effect_determined(vecflip_solution_compressed@, v@, s);
        }
        if len == 1 {
            assert(veccompress@[0].1 == 1);
            assert(!strict0);
        }
        if vecflip_solution_compressed@.len() == len {
            assert(!strict0);
        }
    }
    vecflip_solution_compressed
}

/// Shortens a flip sequence by replacing segments of it with shorter
/// sequences that do the same, found by a search of eight flips from the
/// solved ball.  Returns the new sequence and the number of segment balls the
/// search found.
pub fn compress_solution(vecn_solution: &Vec<usize>) -> (r: (Vec<usize>, usize))
    requires
        valid_flips(vecn_solution@),
        vecn_solution@.len() >= 1,
    ensures
        valid_flips(r.0@),
        r.0@.len() <= vecn_solution@.len(),
        forall|s: Seq<u64>|
            s.len() == 12 ==> #[trigger] play_cells(s, r.0@) == play_cells(s, vecn_solution@),
        r.0@.len() == vecn_solution@.len() ==> r.0@ == vecn_solution@,
        vecn_solution@.len() == 1 ==> r.0@ == vecn_solution@,
        r.1 == segment_words(vecn_solution@).filter(|w: u64| reached_within(w, 8)).len(),
        exists|m: Map<u64, Vec<usize>>|
            #[trigger] compressed_from(vecn_solution@, m, 0) == r.0@ && m.dom() == segment_words(
                vecn_solution@,
            ).filter(|w: u64| reached_within(w, 8)) && forall|n: u64| #[trigger]
                m.contains_key(n) ==> search_path(m[n]@, 8, 13) && word_of(
                    play_cells(solved_cells(), m[n]@),
                ) == n,
        (exists|i: int, j: int|
            0 <= i < j < vecn_solution@.len() && #[trigger] has_shortcut(vecn_solution@, 8, i, j))
            ==> r.0@.len() < vecn_solution@.len(),
{
    compress_solution_with_depth(vecn_solution, 8)
}

/// `compress_solution` with a search of `n_depth` flips.
#[verifier::rlimit(100)]
#[verifier::spinoff_prover]
pub fn compress_solution_with_depth(vecn_solution: &Vec<usize>, n_depth: usize) -> (r: (
    Vec<usize>,
    usize,
))
    requires
        valid_flips(vecn_solution@),
        vecn_solution@.len() >= 1,
    ensures
        valid_flips(r.0@),
        r.0@.len() <= vecn_solution@.len(),
        forall|s: Seq<u64>|
            s.len() == 12 ==> #[trigger] play_cells(s, r.0@) == play_cells(s, vecn_solution@),
        r.0@.len() == vecn_solution@.len() ==> r.0@ == vecn_solution@,
        vecn_solution@.len() == 1 ==> r.0@ == vecn_solution@,
        r.1 == segment_words(vecn_solution@).filter(
            |w: u64| reached_within(w, n_depth as int),
        ).len(),
        exists|m: Map<u64, Vec<usize>>|
            #[trigger] compressed_from(vecn_solution@, m, 0) == r.0@ && m.dom() == segment_words(
                vecn_solution@,
            ).filter(|w: u64| reached_within(w, n_depth as int)) && forall|n: u64| #[trigger]
                m.contains_key(n) ==> search_path(m[n]@, n_depth as int, 13) && word_of(
                    play_cells(solved_cells(), m[n]@),
                ) == n,
        (exists|i: int, j: int|
            0 <= i < j < vecn_solution@.len() && #[trigger] has_shortcut(
                vecn_solution@,
                n_depth as int,
                i,
                j,
            )) ==> r.0@.len() < vecn_solution@.len(),
{
    let v = vecn_solution;
    let len = v.len();
    // The balls of all segments.
    let mut setball: FnvHashSet<u64> = FnvHashSet::default();
    let ghost sv = v@;
    let ball0 = SBall::new();
    proof {
        lemma_word_of(ball0);
        assert(sv.subrange(0, 0) =~= Seq::<usize>::empty());
        assert(play_cells(solved_cells(), Seq::<usize>::empty()) == solved_cells());
    }
    set_insert(&mut setball, ball0.n_cells);
    proof {
        assert forall|w: u64| setball@.contains(w) <==> exists|i: int, j: int|
            listed(i, j, 0, 0, len as int) && w == #[trigger] segment_word(sv, i, j) by {
            if setball@.contains(w) {
                assert(listed(0, 0, 0, 0, len as int) && w == segment_word(sv, 0, 0));
            }
        }
    }
    for i_lo in 0..len
        invariant
            valid_flips(v@),
            len == v@.len(),
            sv == v@,
            forall|w: u64| setball@.contains(w) <==> exists|i: int, j: int|
                listed(i, j, i_lo as int, i_lo as int, len as int) && w == #[trigger] segment_word(
                    sv,
                    i,
                    j,
                ),
    {
        let mut ball = SBall::new();
        proof {
            assert(sv.subrange(i_lo as int, i_lo as int) =~= Seq::<usize>::empty());
        }
        for i_hi in i_lo..len
            invariant
                valid_flips(v@),
                len == v@.len(),
                sv == v@,
                i_lo < len,
                ball@ == play_cells(solved_cells(), sv.subrange(i_lo as int, i_hi as int)),
                ball.wf(),
                forall|w: u64| setball@.contains(w) <==> exists|i: int, j: int|
                    listed(i, j, i_lo as int, i_hi as int, len as int) && w
                        == #[trigger] segment_word(sv, i, j),
        {
            proof {
                assert(v@[i_hi as int] < 13);
                assert(sv.subrange(i_lo as int, i_hi + 1).drop_last() =~= sv.subrange(
                    i_lo as int,
                    i_hi as int,
                ));
            }
            ball.flip(v[i_hi]);
            let ghost before = setball@;
            set_insert(&mut setball, ball.n_cells);
            proof {
                lemma_word_of(ball);
                let w_new = segment_word(sv, i_lo as int, i_hi + 1);
                assert(ball.n_cells == w_new);
                assert forall|w: u64| setball@.contains(w) <==> exists|i: int, j: int|
                    listed(i, j, i_lo as int, i_hi + 1, len as int) && w == #[trigger] segment_word(
                        sv,
                        i,
                        j,
                    ) by {
                    if setball@.contains(w) {
                        if w == w_new {
                            assert(listed(i_lo as int, i_hi + 1, i_lo as int, i_hi + 1, len as int));
                        } else {
                            assert(before.contains(w));
                            let (i, j) = choose|i: int, j: int|
                                listed(i, j, i_lo as int, i_hi as int, len as int) && w
                                    == #[trigger] segment_word(sv, i, j);
                            assert(listed(i, j, i_lo as int, i_hi + 1, len as int));
                        }
                    }
                    if exists|i: int, j: int|
                        listed(i, j, i_lo as int, i_hi + 1, len as int) && w == #[trigger] segment_word(
                            sv,
                            i,
                            j,
                        ) {
                        let (i, j) = choose|i: int, j: int|
                            listed(i, j, i_lo as int, i_hi + 1, len as int) && w
                                == #[trigger] segment_word(sv, i, j);
                        if !(i == i_lo && j == i_hi + 1) {
                            assert(listed(i, j, i_lo as int, i_hi as int, len as int));
                            assert(before.contains(w));
                        }
                    }
                }
            }
        }
        proof {
            assert forall|i: int, j: int|
                listed(i, j, i_lo as int, len as int, len as int) == listed(
                    i,
                    j,
                    i_lo + 1,
                    i_lo + 1,
                    len as int,
                ) by {}
        }
    }
    proof {
        assert forall|w: u64| setball@.contains(w) == segment_words(sv).contains(w) by {
            if segment_words(sv).contains(w) {
                let (i, j) = choose|i: int, j: int|
                    0 <= i <= j <= sv.len() && w == #[trigger] segment_word(sv, i, j);
                if i == j {
                    assert(sv.subrange(i, j) =~= sv.subrange(0, 0));
                    assert(listed(0, 0, len as int, len as int, len as int) && w == segment_word(sv, 0, 0));
                } else {
                    assert(listed(i, j, len as int, len as int, len as int));
                }
            }
            if setball@.contains(w) {
                let (i, j) = choose|i: int, j: int|
                    listed(i, j, len as int, len as int, len as int) && w == #[trigger] segment_word(
                        sv,
                        i,
                        j,
                    );
                assert(0 <= i <= j <= sv.len());
            }
        }
        assert(setball@ =~= segment_words(sv));
    }
    // Short paths to those balls.
    let solved = SBall::new();
    let mut collector = SegmentCollector::new(&solved, setball, n_depth);
    solved.find_solution(n_depth, &mut collector);
    let n_entries = table_len(&collector.found);
    let found = collector.found;
    let ghost reached = segment_words(sv).filter(|w: u64| reached_within(w, n_depth as int));
    proof {
        assert forall|w: u64| found@.contains_key(w) == reached.contains(w) by {
            if found@.contains_key(w) {
                let q = found@[w]@;
                lemma_word_of_unique(w, play_cells(solved_cells(), q));
                assert(search_path(q, n_depth as int, 13));
            }
            if reached.contains(w) {
                let q = choose|q: Seq<usize>|
                    search_path(q, n_depth as int, 13) && #[trigger] word_of(
                        play_cells(solved_cells(), q),
                    ) == w;
                assert(collector.seen(q));
            }
        }
        assert(found@.dom() =~= reached);
    }
    let compressed = compress_with_paths(v, &found);
    proof {
        if exists|i: int, j: int|
            0 <= i < j < len && #[trigger] has_shortcut(sv, n_depth as int, i, j) {
            let (i, j) = choose|i: int, j: int|
                0 <= i < j < len && #[trigger] has_shortcut(sv, n_depth as int, i, j);
            let w = segment_word(sv, i, j);
            assert(segment_words(sv).contains(w));
            assert(reached.contains(w));
            let q = found@[w]@;
            lemma_word_of_unique(w, play_cells(solved_cells(), q));
            assert(search_path(q, n_depth as int, 13));
            assert(shortcut_in(v@, found@, i, j));
        }
        assert forall|n: u64| #[trigger] found@.contains_key(n) implies search_path(
            found@[n]@,
            n_depth as int,
            13,
        ) && word_of(play_cells(solved_cells(), found@[n]@)) == n by {
            lemma_word_of_unique(n, play_cells(solved_cells(), found@[n]@));
        }
        assert(compressed_from(v@, found@, 0) == compressed@);
    }
    (compressed, n_entries)
}

/// The first position of `ball` that holds the number `n`.
pub fn position_of_number(ball: &SBall, n: u64) -> (r: Option<usize>)
    ensures
        match r {
            Some(c) => c < 12 && number_of(ball@[c as int]) == n && forall|j: int|
                0 <= j < c ==> number_of(#[trigger] ball@[j]) != n,
            None => forall|j: int| 0 <= j < 12 ==> number_of(#[trigger] ball@[j]) != n,
        },
{
    for i_cell in 0..12
        invariant
            forall|j: int| 0 <= j < i_cell ==> number_of(#[trigger] ball@[j]) != n,
    {
        if extract_cell(ball.n_cells, i_cell) >> 1 == n {
            return Some(i_cell);
        }
    }
    None
}

/// The flips of three-cycle `k`, in the order of the table; the solver does
/// them in reverse order.
pub open spec fn cycle_flips(k: int) -> Seq<usize> {
    if k == 0 {
        seq![5, 1, 4, 0, 4, 5]
    } else if k == 1 {
        seq![2, 1, 5, 2, 5, 2]
    } else if k == 2 {
        seq![3, 4, 1, 4, 0, 3]
    } else if k == 3 {
        seq![4, 5, 2, 5, 1, 4]
    } else if k == 4 {
        seq![5, 9, 2, 9, 2, 5]
    } else if k == 5 {
        seq![3, 8, 11, 8, 12, 3]
    } else if k == 6 {
        seq![4, 3, 0, 4, 0, 4]
    } else if k == 7 {
        seq![5, 4, 1, 5, 1, 5]
    } else if k == 8 {
        seq![3, 0, 3, 0, 4, 3]
    } else {
        seq![4, 1, 4, 1, 5, 4]
    }
}

/// Where the reversed flips of three-cycle `k` take the cell at position `p`
/// from: the cells at `k + 1` and `k + 2` move down by one, the cell at `k`
/// up to `k + 2`.
pub open spec fn cycle_source(k: int, p: int) -> int {
    if p == k {
        k + 1
    } else if p == k + 1 {
        k + 2
    } else if p == k + 2 {
        k
    } else {
        p
    }
}

/// The trace of six flips done in reverse order, one flip at a time.
proof fn lemma_trace_reversed6(r: Seq<usize>, p: int)
    requires
        r.len() == 6,
    ensures
        ({
            let p1 = crate::moves::step_source(r[0] as int, p);
            let p2 = crate::moves::step_source(r[1] as int, p1);
            let p3 = crate::moves::step_source(r[2] as int, p2);
            let p4 = crate::moves::step_source(r[3] as int, p3);
            let p5 = crate::moves::step_source(r[4] as int, p4);
            let p6 = crate::moves::step_source(r[5] as int, p5);
            let t = (crate::ball::flip_source(r[0] as int, p) >= 0) != (crate::ball::flip_source(
                r[1] as int,
                p1,
            ) >= 0) != (crate::ball::flip_source(r[2] as int, p2) >= 0) != (
            crate::ball::flip_source(r[3] as int, p3) >= 0) != (crate::ball::flip_source(
                r[4] as int,
                p4,
            ) >= 0) != (crate::ball::flip_source(r[5] as int, p5) >= 0);
            &&& crate::moves::trace_source(r.reverse(), p) == p6
            &&& crate::moves::trace_toggle(r.reverse(), p) == t
        }),
{
    let e = Seq::<usize>::empty();
    assert(r.reverse() =~= e.push(r[5]).push(r[4]).push(r[3]).push(r[2]).push(r[1]).push(r[0]));
    let p1 = crate::moves::step_source(r[0] as int, p);
    let p2 = crate::moves::step_source(r[1] as int, p1);
    let p3 = crate::moves::step_source(r[2] as int, p2);
    let p4 = crate::moves::step_source(r[3] as int, p3);
    let p5 = crate::moves::step_source(r[4] as int, p4);
    crate::moves::lemma_trace_push(e.push(r[5]).push(r[4]).push(r[3]).push(r[2]).push(r[1]), r[0], p);
    crate::moves::lemma_trace_push(e.push(r[5]).push(r[4]).push(r[3]).push(r[2]), r[1], p1);
    crate::moves::lemma_trace_push(e.push(r[5]).push(r[4]).push(r[3]), r[2], p2);
    crate::moves::lemma_trace_push(e.push(r[5]).push(r[4]), r[3], p3);
    crate::moves::lemma_trace_push(e.push(r[5]), r[4], p4);
    crate::moves::lemma_trace_push(e, r[5], p5);
}

/// The reversed flips of three-cycle `k` take each cell from
/// `cycle_source(k, p)` and toggle no colour.
#[verifier::spinoff_prover]
#[verifier::rlimit(100)]
proof fn lemma_cycle_trace(k: int, p: int)
    requires
        0 <= k < 10,
        0 <= p < 12,
    ensures
        crate::moves::trace_source(cycle_flips(k).reverse(), p) == cycle_source(k, p),
        !crate::moves::trace_toggle(cycle_flips(k).reverse(), p),
{
    if k == 0 {
        assert(crate::moves::trace_source(cycle_flips(0).reverse(), p) == cycle_source(0, p)
            && !crate::moves::trace_toggle(cycle_flips(0).reverse(), p)) by {
            lemma_trace_reversed6(cycle_flips(0), p);
        }
    }
    if k == 1 {
        assert(crate::moves::trace_source(cycle_flips(1).reverse(), p) == cycle_source(1, p)
            && !crate::moves::trace_toggle(cycle_flips(1).reverse(), p)) by {
            lemma_trace_reversed6(cycle_flips(1), p);
        }
    }
    if k == 2 {
        assert(crate::moves::trace_source(cycle_flips(2).reverse(), p) == cycle_source(2, p)
            && !crate::moves::trace_toggle(cycle_flips(2).reverse(), p)) by {
            lemma_trace_reversed6(cycle_flips(2), p);
        }
    }
    if k == 3 {
        assert(crate::moves::trace_source(cycle_flips(3).reverse(), p) == cycle_source(3, p)
            && !crate::moves::trace_toggle(cycle_flips(3).reverse(), p)) by {
            lemma_trace_reversed6(cycle_flips(3), p);
        }
    }
    if k == 4 {
        assert(crate::moves::trace_source(cycle_flips(4).reverse(), p) == cycle_source(4, p)
            && !crate::moves::trace_toggle(cycle_flips(4).reverse(), p)) by {
            lemma_trace_reversed6(cycle_flips(4), p);
        }
    }
    if k == 5 {
        assert(crate::moves::trace_source(cycle_flips(5).reverse(), p) == cycle_source(5, p)
            && !crate::moves::trace_toggle(cycle_flips(5).reverse(), p)) by {
            lemma_trace_reversed6(cycle_flips(5), p);
        }
    }
    if k == 6 {
        assert(crate::moves::trace_source(cycle_flips(6).reverse(), p) == cycle_source(6, p)
            && !crate::moves::trace_toggle(cycle_flips(6).reverse(), p)) by {
            lemma_trace_reversed6(cycle_flips(6), p);
        }
    }
    if k == 7 {
        assert(crate::moves::trace_source(cycle_flips(7).reverse(), p) == cycle_source(7, p)
            && !crate::moves::trace_toggle(cycle_flips(7).reverse(), p)) by {
            lemma_trace_reversed6(cycle_flips(7), p);
        }
    }
    if k == 8 {
        assert(crate::moves::trace_source(cycle_flips(8).reverse(), p) == cycle_source(8, p)
            && !crate::moves::trace_toggle(cycle_flips(8).reverse(), p)) by {
            lemma_trace_reversed6(cycle_flips(8), p);
        }
    }
    if k == 9 {
        assert(crate::moves::trace_source(cycle_flips(9).reverse(), p) == cycle_source(9, p)
            && !crate::moves::trace_toggle(cycle_flips(9).reverse(), p)) by {
            lemma_trace_reversed6(cycle_flips(9), p);
        }
    }
}

/// The flips of three-cycle `k`, which moves the numbers at positions `k`,
/// `k + 1` and `k + 2` among themselves.
pub fn permutation_flips(k: usize) -> (r: [usize; 6])
    requires
        k < 10,
    ensures
        r@ == cycle_flips(k as int),
        forall|i: int| 0 <= i < 6 ==> #[trigger] r@[i] < 13,
{
    if k == 0 {
        [5, 1, 4, 0, 4, 5]
    } else if k == 1 {
        [2, 1, 5, 2, 5, 2]
    } else if k == 2 {
        [3, 4, 1, 4, 0, 3]
    } else if k == 3 {
        [4, 5, 2, 5, 1, 4]
    } else if k == 4 {
        [5, 9, 2, 9, 2, 5]
    } else if k == 5 {
        [3, 8, 11, 8, 12, 3]
    } else if k == 6 {
        [4, 3, 0, 4, 0, 4]
    } else if k == 7 {
        [5, 4, 1, 5, 1, 5]
    } else if k == 8 {
        [3, 0, 3, 0, 4, 3]
    } else {
        [4, 1, 4, 1, 5, 4]
    }
}

/// The reversed flips of three-cycle `k` move the cells at positions `k + 1`
/// and `k + 2` down by one and the cell at `k` up to `k + 2`, and change
/// nothing else.
pub proof fn lemma_cycle_reversed(s: Seq<u64>, k: int)
    requires
        s.len() == 12,
        0 <= k < 10,
    ensures
        valid_flips(cycle_flips(k).reverse()),
        play_cells(s, cycle_flips(k).reverse()) == Seq::new(12, |p: int| s[cycle_source(k, p)]),
{
    let f = cycle_flips(k).reverse();
    assert forall|i: int| 0 <= i < f.len() implies #[trigger] f[i] < 13 by {
        assert(f[i] == cycle_flips(k)[5 - i]);
    }
    lemma_play_len(s, f);
    assert forall|p: int| 0 <= p < 12 implies #[trigger] play_cells(s, f)[p] == s[cycle_source(k, p)] by {
        crate::moves::lemma_play_trace(s, f, p);
        lemma_cycle_trace(k, p);
    }
    assert(play_cells(s, f) =~= Seq::new(12, |p: int| s[cycle_source(k, p)]));
}

/// Does the flips of three-cycle `k` in reverse order on `ball` and appends
/// them to `flips`.
fn apply_cycle_reversed(ball: &mut SBall, flips: &mut Vec<usize>, k: usize, start: Ghost<Seq<u64>>)
    requires
        k < 10,
        old(ball)@ == play_cells(start@, old(flips)@),
        valid_flips(old(flips)@),
    ensures
        final(ball)@ == play_cells(start@, final(flips)@),
        final(ball)@ == Seq::new(12, |p: int| old(ball)@[cycle_source(k as int, p)]),
        final(ball).high() == old(ball).high(),
        valid_flips(final(flips)@),
        final(flips)@ == old(flips)@ + cycle_flips(k as int).reverse(),
{
    let perm = permutation_flips(k);
    let ghost flips0 = flips@;
    let ghost ball0 = *ball;
    let mut j: usize = 6;
    proof {
        assert(perm@.subrange(6, 6).reverse() =~= Seq::<usize>::empty());
        assert(flips0 + Seq::<usize>::empty() =~= flips0);
    }
    while j > 0
        invariant
            j <= 6,
            forall|i: int| 0 <= i < 6 ==> #[trigger] perm@[i] < 13,
            perm@ == cycle_flips(k as int),
            ball@ == play_cells(start@, flips@),
            ball.high() == ball0.high(),
            valid_flips(flips@),
            flips@ == flips0 + perm@.subrange(j as int, 6).reverse(),
        decreases j,
    {
        j = j - 1;
        proof {
            assert(perm@[j as int] < 13);
        }
        push_flip(ball, flips, perm[j], start);
        proof {
            assert(flips@ =~= flips0 + perm@.subrange(j as int, 6).reverse());
        }
    }
    proof {
        assert(perm@.subrange(0, 6) =~= perm@);
        lemma_play_append(start@, flips0, cycle_flips(k as int).reverse());
        lemma_cycle_reversed(ball0@, k as int);
    }
}

/// A three-cycle keeps every colour at 0.
proof fn lemma_cycle_keeps_colors(s: Seq<u64>, k: int)
    requires
        s.len() == 12,
        0 <= k < 10,
        colors_in_place(s),
    ensures
        colors_in_place(Seq::new(12, |p: int| s[cycle_source(k, p)])),
{
    let t = Seq::new(12, |p: int| s[cycle_source(k, p)]);
    assert forall|i: int| 0 <= i < 12 implies #[trigger] crate::ball::color_of(t[i]) == 0 by {
        assert(0 <= cycle_source(k, i) < 12);
        assert(crate::ball::color_of(s[cycle_source(k, i)]) == 0);
    }
}

/// Every number in place and every colour 0 is the solved ball.
pub proof fn lemma_in_place_is_solved(s: Seq<u64>)
    requires
        s.len() == 12,
        numbers_in_place(s),
        colors_in_place(s),
    ensures
        s == solved_cells(),
{
    assert(forall|c: u64| #[trigger] (c >> 1) < 16 && c & 1 == 0 ==> c == ((c >> 1) * 2) as u64)
        by (bit_vector);
    assert forall|i: int| 0 <= i < 12 implies #[trigger] s[i] == solved_cells()[i] by {
        assert(number_of(s[i]) == i + 1);
        assert(crate::ball::color_of(s[i]) == 0);
        assert(s[i] >> 1 == i + 1);
    }
    assert(s =~= solved_cells());
}

/// Whether the flips `s`, at most `n` of them and none following itself,
/// bring the cells `b` into the solved state, colours included.
pub open spec fn solves_within(b: Seq<u64>, s: Seq<usize>, n: int) -> bool {
    &&& valid_flips(s)
    &&& no_repeat(s)
    &&& s.len() <= n
    &&& play_cells(b, s) == solved_cells()
}

/// A solution of at most `2 * d` flips meets in the middle: at most `d` flips
/// from the ball and at most `d` from the solved ball lead to the same cells.
proof fn lemma_split_solution(b: Seq<u64>, s: Seq<usize>, d: int) -> (r: (Seq<usize>, Seq<usize>))
    requires
        b.len() == 12,
        d >= 0,
        solves_within(b, s, 2 * d),
    ensures
        search_path(r.0, d, 13),
        search_path(r.1, d, 13),
        r.0.len() + r.1.len() == s.len(),
        play_cells(b, r.0) == play_cells(solved_cells(), r.1),
{
    let k = if s.len() <= d {
        s.len() as int
    } else {
        d
    };
    let p1 = s.subrange(0, k);
    let rest = s.subrange(k, s.len() as int);
    lemma_subrange_flips(s, 0, k);
    lemma_subrange_flips(s, k, s.len() as int);
    lemma_reverse_flips(rest);
    assert(p1 + rest =~= s);
    lemma_play_append(b, p1, rest);
    lemma_play_len(b, p1);
    lemma_play_undo(play_cells(b, p1), rest);
    let p2 = rest.reverse();
    if p1.len() > 0 {
        assert(p1[0] < 13);
    }
    if p2.len() > 0 {
        assert(p2[0] < 13);
    }
    (p1, p2)
}

/// A solution: the flips, and for each round of compression the number of
/// segment balls its search found (empty where the meet-in-the-middle search
/// succeeded).
pub struct Solution {
    pub flips: Vec<usize>,
    pub compression_entries: Vec<usize>,
}

/// Does the flips `path` on `ball` and appends them to `flips`.
fn play_path(ball: &mut SBall, flips: &mut Vec<usize>, path: &Vec<usize>, start: Ghost<Seq<u64>>)
    requires
        old(ball)@ == play_cells(start@, old(flips)@),
        old(ball).wf(),
        valid_flips(old(flips)@),
        valid_flips(path@),
    ensures
        final(ball)@ == play_cells(start@, final(flips)@),
        final(ball).wf(),
        valid_flips(final(flips)@),
        final(flips)@ == old(flips)@ + path@,
{
    let ghost f0 = flips@;
    proof {
        assert(f0 + path@.take(0) =~= f0);
    }
    for j in 0..path.len()
        invariant
            valid_flips(path@),
            ball@ == play_cells(start@, flips@),
            ball.wf(),
            valid_flips(flips@),
            flips@ == f0 + path@.take(j as int),
    {
        proof {
            assert(path@[j as int] < 13);
        }
        push_flip(ball, flips, path[j], start);
        proof {
            assert(flips@ =~= f0 + path@.take(j + 1));
        }
    }
    proof {
        assert(path@.take(path@.len() as int) =~= path@);
    }
}

/// Brings the numbers 1 to 10 to positions 0 to 9, one after another, by
/// three-cycles, which change no colour; the flips are appended to `flips`.
/// Returns `false` where a number is missing or stands below its place
/// although the numbers before it are in place.
///
/// Where each of 1 to 12 stands at exactly one position, it returns `true`,
/// each of them still stands at exactly one position, and the parity of the
/// inversions is as before.
fn install_numbers(ball: &mut SBall, flips: &mut Vec<usize>, start: Ghost<Seq<u64>>) -> (ok: bool)
    requires
        old(ball)@ == play_cells(start@, old(flips)@),
        old(ball).wf(),
        valid_flips(old(flips)@),
        colors_in_place(old(ball)@),
    ensures
        final(ball)@ == play_cells(start@, final(flips)@),
        final(ball).wf(),
        valid_flips(final(flips)@),
        colors_in_place(final(ball)@),
        perm12(arrangement(old(ball)@)) ==> {
            &&& ok
            &&& perm12(arrangement(final(ball)@))
            &&& inversions(arrangement(final(ball)@)) % 2 == inversions(arrangement(old(ball)@)) % 2
            &&& forall|j: int| 0 <= j < 10 ==> #[trigger] number_of(final(ball)@[j]) == j + 1
        },
{
    let ghost ball0 = ball@;
    let ghost hyp = perm12(arrangement(ball0));
    let ghost par = inversions(arrangement(ball0)) % 2;
    for i in 1..11u64
        invariant
            ball@ == play_cells(start@, flips@),
            ball.wf(),
            valid_flips(flips@),
            colors_in_place(ball@),
            hyp == perm12(arrangement(ball0)),
            par == inversions(arrangement(ball0)) % 2,
            ball0 == old(ball)@,
            hyp ==> perm12(arrangement(ball@)),
            hyp ==> inversions(arrangement(ball@)) % 2 == par,
            hyp ==> forall|j: int| 0 <= j < i - 1 ==> #[trigger] number_of(ball@[j]) == j + 1,
    {
        let i_desired_pos = (i - 1) as usize;
        let mut n_actual_pos = match position_of_number(ball, i) {
            Some(c) => c,
            None => {
                proof {
                    if hyp {
                        lemma_numbers_once(ball@);
                        assert(holds_once(ball@, i as int));
                        let p = choose|p: int| 0 <= p < 12 && number_of(ball@[p]) == i as int;
                        assert(number_of(ball@[p]) != i);
                    }
                }
                return false;
            },
        };
        if i_desired_pos > n_actual_pos {
            proof {
                if hyp {
                    assert(number_of(ball@[n_actual_pos as int]) == n_actual_pos + 1);
                }
            }
            return false;
        }
        while n_actual_pos != i_desired_pos
            invariant
                    i_desired_pos < 10,
                i_desired_pos == i - 1,
                i_desired_pos <= n_actual_pos < 12,
                number_of(ball@[n_actual_pos as int]) == i,
                forall|j: int| 0 <= j < n_actual_pos ==> #[trigger] number_of(ball@[j]) != i,
                ball@ == play_cells(start@, flips@),
                ball.wf(),
                valid_flips(flips@),
                colors_in_place(ball@),
                hyp == perm12(arrangement(ball0)),
            par == inversions(arrangement(ball0)) % 2,
            ball0 == old(ball)@,
                hyp ==> perm12(arrangement(ball@)),
                hyp ==> inversions(arrangement(ball@)) % 2 == par,
                hyp ==> forall|j: int|
                    0 <= j < i_desired_pos ==> #[trigger] number_of(ball@[j]) == j + 1,
            decreases n_actual_pos,
        {
            let k = if n_actual_pos == 1 {
                0
            } else if i_desired_pos > n_actual_pos - 2 {
                i_desired_pos
            } else {
                n_actual_pos - 2
            };
            let ghost before = ball@;
            let ghost a_old = n_actual_pos;
            apply_cycle_reversed(ball, flips, k, start);
            let ghost expected: int = if k == a_old - 2 {
                a_old - 1
            } else {
                i_desired_pos as int
            };
            proof {
                lemma_cycle_keeps_colors(before, k as int);
                lemma_cycle_step(before, ball@, k as int, i_desired_pos as int, hyp, par);
                assert(number_of(ball@[expected]) == i);
                assert forall|j: int| 0 <= j < expected implies #[trigger] number_of(
                    ball@[j],
                ) != i by {
                    assert(ball@[j] == before[cycle_source(k as int, j)]);
                }
            }
            n_actual_pos = match position_of_number(ball, i) {
                Some(c) => c,
                None => {
                    proof {
                        assert(false);
                    }
                    return false;
                },
            };
            proof {
                assert(n_actual_pos == expected);
            }
        }
        proof {
            if hyp {
                assert forall|j: int| 0 <= j < i implies #[trigger] number_of(ball@[j]) == j
                    + 1 by {}
            }
        }
    }
    true
}

/// Whether the colour-then-numbers stage is sure to finish from the cells
/// `b`: each of the numbers 1 to 12 stands at exactly one position, and
/// searches of `d` flips find paths that put every colour right, of even and
/// of odd length.
pub open spec fn fallback_ok(b: Seq<u64>, d: int) -> bool {
    &&& numbers_once(b)
    &&& exists|p: Seq<usize>|
        search_path(p, d, 13) && p.len() % 2 == 0 && colors_in_place(#[trigger] play_cells(b, p))
    &&& exists|p: Seq<usize>|
        search_path(p, d, 13) && p.len() % 2 == 1 && colors_in_place(#[trigger] play_cells(b, p))
}

/// A three-cycle at or above position `d` keeps each number once and the
/// parity of the inversions (it is six flips), and the numbers in place
/// below `d`.
proof fn lemma_cycle_step(before: Seq<u64>, after: Seq<u64>, k: int, d: int, hyp: bool, par: int)
    requires
        before.len() == 12,
        0 <= d <= k < 10,
        after == Seq::new(12, |p: int| before[cycle_source(k, p)]),
        hyp ==> perm12(arrangement(before)),
        hyp ==> inversions(arrangement(before)) % 2 == par,
        hyp ==> forall|j: int| 0 <= j < d ==> #[trigger] number_of(before[j]) == j + 1,
    ensures
        hyp ==> perm12(arrangement(after)),
        hyp ==> inversions(arrangement(after)) % 2 == par,
        hyp ==> forall|j: int| 0 <= j < d ==> #[trigger] number_of(after[j]) == j + 1,
{
    if hyp {
        lemma_cycle_reversed(before, k);
        lemma_play_parity(before, cycle_flips(k).reverse());
        assert forall|j: int| 0 <= j < d implies #[trigger] number_of(after[j]) == j + 1 by {
            assert(after[j] == before[j]);
        }
    }
}

/// Dropping two equal flips in a row leaves the cells as they were.
proof fn lemma_drop_pair(b: Seq<u64>, g: Seq<usize>, i: int)
    requires
        b.len() == 12,
        valid_flips(g),
        1 <= i < g.len(),
        g[i] == g[i - 1],
    ensures
        play_cells(b, g.subrange(0, i - 1) + g.subrange(i + 1, g.len() as int)) == play_cells(b, g),
{
    let p = g.subrange(0, i - 1);
    let q = g.subrange(i + 1, g.len() as int);
    let k = g[i];
    let kk = seq![k, k];
    assert(g =~= p + kk + q);
    lemma_play_append(b, p + kk, q);
    lemma_play_append(b, p, kk);
    lemma_play_append(b, p, q);
    let x = play_cells(b, p);
    lemma_play_len(b, p);
    assert(kk.drop_last() =~= seq![k]);
    assert(seq![k].drop_last() =~= Seq::<usize>::empty());
    assert(play_cells(x, Seq::<usize>::empty()) == x);
    assert(play_cells(x, seq![k]) == crate::ball::flip_cells(x, k as int));
    assert(play_cells(x, kk) == crate::ball::flip_cells(play_cells(x, seq![k]), k as int));
    assert(g[i] < 13);
    crate::ball::lemma_flip_involution(x, k as int);
}

/// Where some flips, at most `n` of them, solve the cells `b`, some flips
/// with none following itself, and no more of them, do.
pub proof fn lemma_no_repeat_solution(b: Seq<u64>, g: Seq<usize>, n: int)
    requires
        b.len() == 12,
        valid_flips(g),
        g.len() <= n,
        play_cells(b, g) == solved_cells(),
    ensures
        exists|s: Seq<usize>| #[trigger] solves_within(b, s, n),
    decreases g.len(),
{
    if no_repeat(g) {
        assert(solves_within(b, g, n));
    } else {
        let i = choose|i: int| 1 <= i < g.len() && #[trigger] g[i] == g[i - 1];
        let h = g.subrange(0, i - 1) + g.subrange(i + 1, g.len() as int);
        assert forall|j: int| 0 <= j < h.len() implies #[trigger] h[j] < 13 by {
            if j < i - 1 {
                assert(h[j] == g[j]);
            } else {
                assert(h[j] == g[j + 2]);
            }
        }
        lemma_drop_pair(b, g, i);
        lemma_no_repeat_solution(b, h, n);
    }
}

/// Searches for flips that solve `ball`: meet-in-the-middle with searches of
/// `n_meet_depth` flips, and otherwise colours first (a search of
/// `n_color_depth` flips) and then the numbers one after another, the result
/// shortened by `compress_solution` with searches of `n_compress_depth` flips.
///
/// Every solution returned brings the ball into the solved state, colours
/// included.  Where some `2 * n_meet_depth` flips or fewer, none following
/// itself, solve the ball completely, the meet-in-the-middle search finds a
/// solution no longer than any of them.  Where each number stands at exactly
/// one position and searches of `n_color_depth` flips find colour solutions
/// of both parities, a solution is returned: exactly one of the two colour
/// solutions leaves 11 and 12 in order once 1 to 10 are installed, since
/// every flip changes the parity of the arrangement and every three-cycle
/// keeps it.  Where the colour-then-numbers way is taken (no solution of
/// `2 * n_meet_depth` flips exists), the solution is shortened until no
/// segment before its last flip has a shortcut within `n_compress_depth`
/// flips.
pub fn solve_with_depths(
    ball: &SBall,
    n_meet_depth: usize,
    n_color_depth: usize,
    n_compress_depth: usize,
) -> (r: Option<
    Solution,
>)
    requires
        ball.wf(),
    ensures
        match r {
            Some(sol) => {
                &&& valid_flips(sol.flips@)
                &&& play_cells(ball@, sol.flips@) == solved_cells()
            },
            None => true,
        },
        forall|s: Seq<usize>|
            #[trigger] solves_within(ball@, s, 2 * n_meet_depth) ==> (r matches Some(sol)
                && sol.compression_entries@.len() == 0 && sol.flips@.len() <= s.len()),
        fallback_ok(ball@, n_color_depth as int) ==> r is Some,
        r matches Some(sol) ==> (sol.compression_entries@.len() > 0 ==> forall|i: int, j: int|
            0 <= i < j < sol.flips@.len() ==> !#[trigger] has_shortcut(
                sol.flips@,
                n_compress_depth as int,
                i,
                j,
            )),
        r matches Some(sol) ==> ((forall|s: Seq<usize>|
            !#[trigger] solves_within(ball@, s, 2 * n_meet_depth)) ==> forall|i: int, j: int|
            0 <= i < j < sol.flips@.len() ==> !#[trigger] has_shortcut(
                sol.flips@,
                n_compress_depth as int,
                i,
                j,
            )),
{
    let ghost start = ball@;
    // Try to find an optimal solution by looking from both sides.
    let solved = SBall::new();
    let mut recorder = DepthRecorder::new(&solved, n_meet_depth);
    solved.find_solution(n_meet_depth, &mut recorder);
    let ghost rec = recorder;
    let ghost table = recorder.table@;
    let mut meet = MeetFinder::new(ball, recorder.table);
    ball.find_solution(n_meet_depth, &mut meet);
    proof {
        assert(meet.table@ == table);
        assert forall|s: Seq<usize>| #[trigger]
            solves_within(ball@, s, 2 * n_meet_depth) implies meet.best is Some && meet_total(
            meet.best,
        ) <= s.len() by {
            let (p1, p2) = lemma_split_solution(ball@, s, n_meet_depth as int);
            assert(rec.seen(p2));
            assert(meet.seen(p1));
        }
    }
    proof {
        if meet.best is Some {
            let p = meet.best.unwrap().1;
            let a = choose|a: spec_fn(Seq<usize>) -> bool|
                meet.log() == Seq::<(Seq<usize>, bool)>::empty() + with_answers(
                    #[trigger] dfs_visits(Seq::<usize>::empty(), n_meet_depth as nat, 13, a),
                    a,
                );
            let dv = dfs_visits(Seq::<usize>::empty(), n_meet_depth as nat, 13, a);
            let i = choose|i: int| 0 <= i < meet.visits@.len() && #[trigger] meet.visits@[i].0 == p@;
            assert(meet.visits@[i] == (dv[i], a(dv[i])));
            lemma_search_visits(Seq::<usize>::empty(), n_meet_depth as nat, 13, a);
            assert(visit_ok(dv[i], Seq::<usize>::empty(), n_meet_depth as int, 13));
            assert(dv[i].subrange(0, dv[i].len() as int) =~= dv[i]);
            assert(p@.len() <= n_meet_depth);
        }
    }
    if let Some((n_flips, vecflip)) = meet.best {
        let ghost total = meet_total(meet.best);
        let mut ball_playback = *ball;
        ball_playback.play_flips(vecflip.as_slice());
        let mut finder = PathFinder::new(&solved, ball_playback.n_cells, n_flips);
        solved.find_solution(n_meet_depth, &mut finder);
        proof {
            lemma_word_of(ball_playback);
            let w = ball_playback.n_cells;
            assert(table.contains_key(w) && table[w] == n_flips);
            assert(reached_in(solved_cells(), w, n_flips as int));
            let f = choose|f: Seq<usize>|
                f.len() == n_flips && no_repeat(f) && #[trigger] leads_to(solved_cells(), f, w);
            lemma_word_of_unique(w, play_cells(solved_cells(), f));
            if f.len() > 0 {
                assert(f[0] < 13);
            }
            assert(search_path(f, n_meet_depth as int, 13));
            if finder.found is None {
                assert(finder.seen(f));
            }
        }
        match finder.found {
            Some(back) => {
                let ghost f = vecflip@;
                let ghost b = back@;
                let mut flips = vecflip;
                let mut tail = back;
                flips.append(&mut tail);
                proof {
                    assert(flips@ == f + b);
                    lemma_play_append(start, f, b);
                    assert(cells_of(ball_playback.n_cells) == ball_playback@);
                    assert(b.reverse().reverse() =~= b);
                    assert(leads_to(solved_cells(), b.reverse(), ball_playback.n_cells));
                    assert(SBall { n_cells: ball_playback.n_cells } == ball_playback);
                    assert(play_cells(solved_cells(), b.reverse()) == ball_playback@);
                    assert(play_cells(start, f) == ball_playback@);
                    assert(valid_flips(b.reverse()));
                    lemma_play_undo(solved_cells(), b.reverse());
                    assert(play_cells(start, f + b) == solved_cells());
                    lemma_solved_state();
                    assert forall|i: int| 0 <= i < flips@.len() implies #[trigger] flips@[i] < 13 by {
                        if i < f.len() {
                            assert(flips@[i] == f[i]);
                        } else {
                            assert(flips@[i] == b[i - f.len()]);
                        }
                    }
                    assert(flips@.len() == total);
                }
                proof {
                    lemma_no_repeat_solution(start, flips@, 2 * n_meet_depth);
                }
                return Some(Solution { flips, compression_entries: Vec::new() });
            },
            None => {
                proof {
                    assert(false);
                }
                return None;
            },
        }
    }
    // Otherwise: first put the colours right, then the numbers.
    proof {
        assert forall|s: Seq<usize>| !#[trigger] solves_within(ball@, s, 2 * n_meet_depth) by {
            if solves_within(ball@, s, 2 * n_meet_depth) {
                assert(meet.best is Some);
            }
        }
    }
    let ghost hyp = fallback_ok(ball@, n_color_depth as int);
    let ghost inv0 = inversions(arrangement(start));
    proof {
        lemma_numbers_once(start);
    }
    let mut colors = ColorFinder::new(ball);
    ball.find_solution(n_color_depth, &mut colors);
    proof {
        if hyp {
            let pe = choose|p: Seq<usize>|
                search_path(p, n_color_depth as int, 13) && p.len() % 2 == 0 && colors_in_place(
                    #[trigger] play_cells(start, p),
                );
            let po = choose|p: Seq<usize>|
                search_path(p, n_color_depth as int, 13) && p.len() % 2 == 1 && colors_in_place(
                    #[trigger] play_cells(start, p),
                );
            if !colors.done() {
                assert(colors.seen(pe));
                assert(colors.seen(po));
            }
        }
    }
    let even = match colors.even {
        Some(p) => p,
        None => {
            return None;
        },
    };
    let odd = match colors.odd {
        Some(p) => p,
        None => {
            return None;
        },
    };
    let mut ball_playback = *ball;
    let mut vecn_solution: Vec<usize> = Vec::new();
    proof {
        assert(play_cells(start, vecn_solution@) == start);
    }
    play_path(&mut ball_playback, &mut vecn_solution, &even, Ghost(start));
    proof {
        assert(vecn_solution@ =~= even@);
        if hyp {
            lemma_play_parity(start, even@);
        }
    }
    let mut n_pass: usize = 0;
    while !ball_playback.is_solved()
        invariant
            forall|s: Seq<usize>| !#[trigger] solves_within(ball@, s, 2 * n_meet_depth),
            start == ball@,
            ball.wf(),
            valid_flips(odd@),
            odd@.len() % 2 == 1,
            ball_playback@ == play_cells(start, vecn_solution@),
            ball_playback.wf(),
            valid_flips(vecn_solution@),
            colors_in_place(ball_playback@),
            colors_in_place(play_cells(start, odd@)),
            n_pass <= 2,
            hyp == fallback_ok(ball@, n_color_depth as int),
            hyp ==> perm12(arrangement(start)),
            inv0 == inversions(arrangement(start)),
            hyp ==> perm12(arrangement(ball_playback@)),
            hyp && n_pass == 0 ==> inversions(arrangement(ball_playback@)) % 2 == inv0 % 2,
            hyp && n_pass == 1 ==> inversions(arrangement(ball_playback@)) % 2 == 0,
            hyp && n_pass == 2 ==> numbers_in_place(ball_playback@),
        decreases 2 - n_pass,
    {
        if n_pass == 2 {
            return None;
        }
        n_pass = n_pass + 1;
        // Install the numbers one after another.
        let ghost before_install = ball_playback@;
        if !install_numbers(&mut ball_playback, &mut vecn_solution, Ghost(start)) {
            return None;
        }
        let ghost par = inversions(arrangement(before_install)) % 2;
        proof {
            if hyp {
                lemma_installed_parity(arrangement(ball_playback@));
            }
        }
        if !ball_playback.is_solved() {
            proof {
                if hyp {
                    let w = choose|j: int| 0 <= j < 12 && number_of(ball_playback@[j]) != j + 1;
                    assert(arrangement(ball_playback@)[w] != w + 1);
                }
            }
            // The other parity: start again from the odd colour solution.
            ball_playback = *ball;
            vecn_solution.clear();
            proof {
                assert(play_cells(start, vecn_solution@) == start);
            }
            play_path(&mut ball_playback, &mut vecn_solution, &odd, Ghost(start));
            proof {
                assert(vecn_solution@ =~= odd@);
                if hyp {
                    lemma_play_parity(start, odd@);
                }
            }
        } else {
            proof {
                if hyp && n_pass == 2 {
                    assert(numbers_in_place(ball_playback@));
                }
            }
        }
    }
    proof {
        crate::moves::lemma_play_len(start, vecn_solution@);
        lemma_in_place_is_solved(ball_playback@);
        if vecn_solution@.len() == 0 {
            assert(solves_within(ball@, vecn_solution@, 2 * n_meet_depth));
        }
    }
    let mut n_old_length = vecn_solution.len();
    let mut compression_entries: Vec<usize> = Vec::new();
    let (mut vecflip_solution_compressed, n_entries) = compress_solution_with_depth(&vecn_solution, n_compress_depth);
    compression_entries.push(n_entries);
    let ghost mut prev: Seq<usize> = vecn_solution@;
    while vecflip_solution_compressed.len() < n_old_length
        invariant
            n_old_length == prev.len(),
            vecflip_solution_compressed@.len() <= prev.len(),
            vecflip_solution_compressed@.len() == prev.len() ==> vecflip_solution_compressed@ == prev,
            (exists|i: int, j: int|
                0 <= i < j < prev.len() && #[trigger] has_shortcut(prev, n_compress_depth as int, i, j))
                ==> vecflip_solution_compressed@.len() < prev.len(),
            forall|s: Seq<usize>| !#[trigger] solves_within(ball@, s, 2 * n_meet_depth),
            start.len() == 12,
            start == ball@,
            valid_flips(vecflip_solution_compressed@),
            play_cells(start, vecflip_solution_compressed@) == play_cells(start, vecn_solution@),
            compression_entries@.len() >= 1,
            play_cells(start, vecn_solution@) == solved_cells(),
        decreases n_old_length,
    {
        n_old_length = vecflip_solution_compressed.len();
        proof {
            if n_old_length == 0 {
                assert(vecflip_solution_compressed@ =~= Seq::<usize>::empty());
                assert(solves_within(ball@, vecflip_solution_compressed@, 2 * n_meet_depth));
            }
        }
        proof {
            prev = vecflip_solution_compressed@;
        }
        let (next, n_entries) = compress_solution_with_depth(
            &vecflip_solution_compressed,
            n_compress_depth,
        );
        compression_entries.push(n_entries);
        vecflip_solution_compressed = next;
    }
    proof {
        assert(vecflip_solution_compressed@ == prev);
    }
    Some(Solution { flips: vecflip_solution_compressed, compression_entries })
}

/// Searches for flips that solve `ball`, with searches of seven flips from
/// both sides, and otherwise of eight flips for the colours and for
/// shortening.
///
/// Where some fourteen flips or fewer, none following itself, solve the ball
/// completely, the result is such a solution and no longer than any of them.  Where
/// each number stands at exactly one position and searches of eight flips
/// find colour solutions of both parities, a solution is returned; one found
/// that way has no segment before its last flip with a shortcut within
/// eight flips.
pub fn solve(ball: &SBall) -> (r: Option<Solution>)
    requires
        ball.wf(),
    ensures
        match r {
            Some(sol) => {
                &&& valid_flips(sol.flips@)
                &&& play_cells(ball@, sol.flips@) == solved_cells()
            },
            None => true,
        },
        forall|s: Seq<usize>|
            #[trigger] solves_within(ball@, s, 14) ==> (r matches Some(sol)
                && sol.compression_entries@.len() == 0 && sol.flips@.len() <= s.len()),
        fallback_ok(ball@, 8) ==> r is Some,
        r matches Some(sol) ==> (sol.compression_entries@.len() > 0 ==> forall|i: int, j: int|
            0 <= i < j < sol.flips@.len() ==> !#[trigger] has_shortcut(sol.flips@, 8, i, j)),
        r matches Some(sol) ==> ((forall|s: Seq<usize>| !#[trigger] solves_within(ball@, s, 14))
            ==> forall|i: int, j: int|
            0 <= i < j < sol.flips@.len() ==> !#[trigger] has_shortcut(sol.flips@, 8, i, j)),
{
    let r = solve_with_depths(ball, 7, 8, 8);
    proof {
        assert forall|s: Seq<usize>| #[trigger] solves_within(ball@, s, 14) implies (r matches Some(
            sol,
        ) && sol.compression_entries@.len() == 0 && sol.flips@.len() <= s.len()) by {
            assert(solves_within(ball@, s, 2 * 7int));
        }
    }
    r
}

} // verus!
