//! A map from pages to values that stores neighbouring pages together.
use std::sync::atomic::{AtomicUsize, Ordering};
use vstd::prelude::*;

use crate::addr::{
    self, Page, VirtAddr, LAST_PAGE, LOWER_HALF_END, LOWER_HALF_LAST_PAGE, PAGE_SIZE, UPPER_HALF_START,
};

verus! {

/// The values of consecutive pages.
#[verifier::ext_equal]
pub struct Run<T> {
    /// The address of the first page.
    pub start: u64,
    /// The values, one per page.
    pub values: Seq<T>,
}

impl<T> Run<T> {
    /// The address past the last page.
    pub open spec fn end(self) -> int {
        self.start + self.values.len() * PAGE_SIZE
    }

    /// Whether a page belongs to the run.
    pub open spec fn covers(self, page: u64) -> bool {
        &&& self.start <= page < self.end()
        &&& page % PAGE_SIZE == 0
    }

    /// The position of a page in the run.
    pub open spec fn offset(self, page: u64) -> int {
        (page - self.start) / PAGE_SIZE as int
    }

    /// The run isn't empty and stays clear of the hole between the halves of the address space
    /// and of the last page.
    pub open spec fn wf(self) -> bool {
        &&& addr::is_page(self.start)
        &&& self.values.len() > 0
        &&& self.start < LOWER_HALF_END ==> self.end() <= LOWER_HALF_END
        &&& self.end() <= LAST_PAGE
    }
}

/// All runs are well-formed on their own.
pub open spec fn each_wf<T>(runs: Seq<Run<T>>) -> bool {
    forall|i: int| 0 <= i < runs.len() ==> (#[trigger] runs[i]).wf()
}

/// The runs are sorted and don't overlap.
pub open spec fn sorted<T>(runs: Seq<Run<T>>) -> bool {
    forall|i: int, j: int|
        0 <= i < j < runs.len() ==> (#[trigger] runs[i]).end() <= (#[trigger] runs[j]).start
}

/// Whether a page has a value.
pub open spec fn has_page<T>(runs: Seq<Run<T>>, page: u64) -> bool {
    exists|i: int| 0 <= i < runs.len() && (#[trigger] runs[i]).covers(page)
}

/// The index of a run that a page belongs to.
pub open spec fn run_of<T>(runs: Seq<Run<T>>, page: u64) -> int {
    choose|i: int| 0 <= i < runs.len() && (#[trigger] runs[i]).covers(page)
}

/// The value of a page.
pub open spec fn value_of<T>(runs: Seq<Run<T>>, page: u64) -> T {
    let run = runs[run_of(runs, page)];
    run.values[run.offset(page)]
}

/// The values of all pages.
pub open spec fn contents<T>(runs: Seq<Run<T>>) -> Map<u64, T> {
    Map::new(|page: u64| has_page(runs, page), |page: u64| value_of(runs, page))
}

/// A page and the two halves of the address space: inserting the page at a cursor that stands at run
/// `idx` doesn't join pages of the lower half with pages of the upper half.
pub open spec fn keeps_halves_apart<T>(runs: Seq<Run<T>>, idx: int, page: u64) -> bool {
    idx < runs.len() ==> {
        &&& page == UPPER_HALF_START ==> runs[idx].end() != LOWER_HALF_END
        &&& page == LOWER_HALF_LAST_PAGE ==> runs[idx].start != UPPER_HALF_START
        &&& page == LOWER_HALF_LAST_PAGE && runs[idx].end() == page && idx + 1 < runs.len()
            ==> runs[idx + 1].start != UPPER_HALF_START
    }
}

/// A run with a single page.
pub open spec fn single<T>(page: u64, value: T) -> Run<T> {
    Run { start: page, values: seq![value] }
}

/// The effect of inserting one value at a cursor that stands at run `idx`: the runs after the
/// insertion and the run that the cursor stands at then.
///
/// The cursor only looks at the run that it stands at and at the next one. A page right behind
/// the run extends it, and joins it with the next run if that starts with the following page. A
/// page right in front of the run extends it downwards. A page of the run is overwritten. Any
/// other page becomes a run of its own behind the run of the cursor.
pub open spec fn insert_at<T>(runs: Seq<Run<T>>, idx: int, page: u64, value: T) -> (
    Seq<Run<T>>,
    int,
) {
    if idx < runs.len() {
        let run = runs[idx];
        if run.end() == page {
            let values = run.values.push(value);
            if idx + 1 < runs.len() && runs[idx + 1].start == page + PAGE_SIZE {
                let values = values + runs[idx + 1].values;
                (runs.update(idx, Run { start: run.start, values }).remove(idx + 1), idx)
            } else {
                (runs.update(idx, Run { start: run.start, values }), idx)
            }
        } else if run.end() < page || run.start > page {
            if run.start == page + PAGE_SIZE {
                let values = seq![value] + run.values;
                (runs.update(idx, Run { start: page, values }), idx)
            } else {
                (runs.insert(idx + 1, single(page, value)), idx + 1)
            }
        } else {
            let values = run.values.update(run.offset(page), value);
            (runs.update(idx, Run { start: run.start, values }), idx)
        }
    } else {
        (runs.insert(idx, single(page, value)), idx)
    }
}

/// The effect of inserting values for consecutive pages one by one.
pub open spec fn insert_all_at<T>(
    runs: Seq<Run<T>>,
    idx: int,
    page: u64,
    values: Seq<T>,
) -> Seq<Run<T>>
    decreases values.len(),
{
    if values.len() == 0 {
        runs
    } else {
        let (runs, idx) = insert_at(runs, idx, page, values[0]);
        insert_all_at(runs, idx, (page + PAGE_SIZE) as u64, values.drop_first())
    }
}

/// Inserting values for consecutive pages one by one doesn't join pages of the lower half with pages
/// of the upper half.
pub open spec fn all_keep_halves_apart<T>(
    runs: Seq<Run<T>>,
    idx: int,
    page: u64,
    values: Seq<T>,
) -> bool
    decreases values.len(),
{
    values.len() > 0 ==> keeps_halves_apart(runs, idx, page) && {
        let (runs, idx) = insert_at(runs, idx, page, values[0]);
        all_keep_halves_apart(runs, idx, (page + PAGE_SIZE) as u64, values.drop_first())
    }
}

/// Whether `count` pages start with the upper half or end with the lower half.
pub open spec fn touches_hole(page: u64, count: int) -> bool {
    page == UPPER_HALF_START || page + count * PAGE_SIZE == LOWER_HALF_END
}

/// The run that a cursor for a page starts at: the run that starts with the page or else the
/// last run before the page or else the first run.
pub open spec fn is_cursor_start<T>(runs: Seq<Run<T>>, page: u64, idx: int) -> bool {
    &&& 0 <= idx <= runs.len()
    &&& idx < runs.len() ==> runs[idx].start <= page || idx == 0
    &&& idx == runs.len() ==> idx == 0
    &&& forall|j: int| idx < j < runs.len() ==> (#[trigger] runs[j]).start > page
}

/// Whether the cursor stands where a page belongs: inserting the page there keeps the runs
/// sorted.
pub open spec fn in_place<T>(runs: Seq<Run<T>>, idx: int, page: u64) -> bool {
    &&& 0 <= idx <= runs.len()
    &&& forall|j: int| 0 <= j < idx ==> (#[trigger] runs[j]).end() <= page
    &&& forall|j: int| idx < j < runs.len() ==> (#[trigger] runs[j]).start > page
    &&& idx < runs.len() ==> runs[idx].start <= page || runs[idx].start == page + PAGE_SIZE
}

/// Whether nothing gets in the way of inserting the values of `count` consecutive pages: every
/// run ahead that the cursor reaches is preceded by a page without a value that the cursor
/// appends to the run that it stands at.
pub open spec fn clear_ahead<T>(runs: Seq<Run<T>>, idx: int, page: u64, count: int) -> bool {
    &&& forall|i: int, j: int|
        idx <= i < j < runs.len() && runs[j].start < page + count * PAGE_SIZE ==> (
        #[trigger] runs[i]).end() < (#[trigger] runs[j]).start
    &&& idx + 1 < runs.len() && count > 1 && runs[idx + 1].start == page + PAGE_SIZE
        ==> runs[idx].end() == page
}

/// The run that a cursor for a page starts at.
pub open spec fn cursor_start<T>(runs: Seq<Run<T>>, page: u64) -> int {
    choose|idx: int| is_cursor_start(runs, page, idx)
}

/// A map after setting the values of consecutive pages.
pub open spec fn with_values<T>(map: Map<u64, T>, page: u64, values: Seq<T>) -> Map<u64, T> {
    map.union_prefer_right(
        Map::new(
            |p: u64| page <= p < page + values.len() * PAGE_SIZE && p % PAGE_SIZE == 0,
            |p: u64| values[(p - page) / PAGE_SIZE as int],
        ),
    )
}

/// Whether `count` pages lie in one half of the address space and don't reach the last page.
pub open spec fn in_one_half(page: u64, count: int) -> bool {
    &&& page < LOWER_HALF_END ==> page + count * PAGE_SIZE <= LOWER_HALF_END
    &&& page + count * PAGE_SIZE <= LAST_PAGE
}

/// The page that a removal stops at.
pub open spec fn removal_end(page: u64, len: int) -> u64 {
    match addr::forward(page, len * PAGE_SIZE) {
        Some(end) => end,
        None => LAST_PAGE,
    }
}

/// Whether a page survives the removal of the pages from `start` to `end`. A run that starts
/// behind `start` and reaches past `end` is left alone.
pub open spec fn survives<T>(run: Run<T>, page: u64, start: u64, end: u64) -> bool {
    page < start || page >= end || (run.start > start && run.end() > end)
}

/// The effect of removing the pages from `start` to `end` on a map.
pub open spec fn is_removal<T>(runs: Seq<Run<T>>, after: Map<u64, T>, start: u64, end: u64) -> bool {
    &&& forall|page: u64| #[trigger]
        after.contains_key(page) <==> has_page(runs, page) && survives(
            runs[run_of(runs, page)],
            page,
            start,
            end,
        )
    &&& forall|page: u64| #[trigger]
        after.contains_key(page) ==> after[page] == contents(runs)[page]
}

/// What the removal of the pages from `start` to `end` leaves of a run.
pub open spec fn remaining<T>(run: Run<T>, start: u64, end: u64) -> Seq<Run<T>> {
    let lower = Run { start: run.start, values: run.values.take(run.offset(start)) };
    let upper = Run { start: end, values: run.values.skip(run.offset(end)) };
    if run.start < start {
        if run.end() <= start {
            seq![run]
        } else if run.end() <= end {
            seq![lower]
        } else {
            seq![lower, upper]
        }
    } else if run.end() <= end {
        seq![]
    } else if run.start == start {
        seq![upper]
    } else {
        seq![run]
    }
}

/// What the removal of the pages from `start` to `end` leaves of runs.
pub open spec fn all_remaining<T>(runs: Seq<Run<T>>, start: u64, end: u64) -> Seq<Run<T>>
    decreases runs.len(),
{
    if runs.len() == 0 {
        seq![]
    } else {
        all_remaining(runs.drop_last(), start, end) + remaining(runs.last(), start, end)
    }
}

/// `done` is what the removal of the pages from `start` to `end` leaves of the first `next` runs.
spec fn is_partial_removal<T>(
    runs: Seq<Run<T>>,
    done: Seq<Run<T>>,
    next: int,
    start: u64,
    end: u64,
) -> bool {
    &&& each_wf(done)
    &&& sorted(done)
    &&& forall|i: int, j: int|
        0 <= i < done.len() && next <= j < runs.len() ==> (#[trigger] done[i]).end() <= (
        #[trigger] runs[j]).start
    &&& forall|i: int, page: u64|
        0 <= i < next && (#[trigger] runs[i]).covers(page) ==> (#[trigger] has_page(done, page)
            <==> survives(runs[i], page, start, end))
    &&& forall|page: u64| #[trigger]
        has_page(done, page) ==> {
            &&& has_page(runs, page)
            &&& 0 <= run_of(runs, page) < next
            &&& value_of(done, page) == value_of(runs, page)
        }
}

/// Two runs of sorted runs that share a page are the same.
proof fn lemma_unique<T>(runs: Seq<Run<T>>, i: int, j: int, page: u64)
    requires
        sorted(runs),
        0 <= i < runs.len(),
        0 <= j < runs.len(),
        runs[i].covers(page),
        runs[j].covers(page),
    ensures
        i == j,
{
}

/// A page of a run is in the map.
proof fn lemma_covered<T>(runs: Seq<Run<T>>, i: int, page: u64)
    requires
        sorted(runs),
        0 <= i < runs.len(),
        runs[i].covers(page),
    ensures
        contents(runs).contains_key(page),
        contents(runs)[page] == runs[i].values[runs[i].offset(page)],
{
    lemma_unique(runs, i, run_of(runs, page), page);
}

/// A page that no run covers isn't in the map.
proof fn lemma_absent<T>(runs: Seq<Run<T>>, page: u64)
    requires
        forall|i: int| 0 <= i < runs.len() ==> !(#[trigger] runs[i]).covers(page),
    ensures
        !contents(runs).contains_key(page),
{
}

/// The values of consecutive pages.
struct Chunk<V> {
    start: Page,
    values: Vec<V>,
}

impl<V> View for Chunk<V> {
    type V = Run<V>;

    closed spec fn view(&self) -> Run<V> {
        Run { start: self.start@, values: self.values@ }
    }
}

impl<V> Chunk<V> {
    fn start(&self) -> (res: Page)
        ensures
            res@ == self@.start,
    {
        self.start
    }

    /// The page behind the last page of the chunk.
    fn end(&self) -> (res: Page)
        requires
            self@.wf(),
        ensures
            res@ == if self@.end() == LOWER_HALF_END {
                UPPER_HALF_START as int
            } else {
                self@.end()
            },
    {
        let len: u64 = self.values.len() as u64;
        self.start.checked_add(len).unwrap()
    }
}

/// A map from pages to values.
pub struct PageMap<T> {
    chunks: Vec<Chunk<T>>,
    /// The index of the chunk that was looked up last.
    last_index: AtomicUsize,
}

impl<T> View for PageMap<T> {
    type V = Map<u64, T>;

    open spec fn view(&self) -> Map<u64, T> {
        contents(self.runs())
    }
}

impl<T> PageMap<T> {
    /// The runs of neighbouring pages that the map stores together.
    pub closed spec fn runs(&self) -> Seq<Run<T>> {
        self.chunks@.map_values(|chunk: Chunk<T>| chunk@)
    }

    /// The runs are sorted, don't overlap and stay clear of the hole between the halves of the
    /// address space.
    pub open spec fn wf(&self) -> bool {
        each_wf(self.runs()) && sorted(self.runs())
    }

    /// Creates an empty map.
    pub fn new() -> (res: Self)
        ensures
            res.wf(),
            res.runs() == Seq::<Run<T>>::empty(),
            res@ == Map::<u64, T>::empty(),
    {
        let res = Self { chunks: Vec::new(), last_index: AtomicUsize::new(0) };
        assert(res.runs() =~= Seq::empty());
        assert(res@ =~= Map::empty());
        res
    }

    /// Whether the map has no entries.
    pub fn is_empty(&self) -> (res: bool)
        requires
            self.wf(),
        ensures
            res == (self@ == Map::<u64, T>::empty()),
            res == (self.runs().len() == 0),
    {
        proof {
            if self.runs().len() > 0 {
                let run = self.runs()[0];
                lemma_covered(self.runs(), 0, run.start);
            } else {
                assert(self@ =~= Map::empty());
            }
        }
        self.chunks.is_empty()
    }

    /// The number of runs of neighbouring pages that are stored together.
    pub fn chunk_count(&self) -> (res: usize)
        ensures
            res == self.runs().len(),
    {
        self.chunks.len()
    }

    /// Searches for the chunk that starts with a page. The error is the index of the first chunk
    /// behind the page.
    fn find_chunk_idx_impl(&self, page: Page) -> (res: Result<usize, usize>)
        requires
            self.wf(),
        ensures
            self.is_search_result(page@, res),
    {
        let len: usize = self.chunks.len();
        if len < 16 {
            let mut i: usize = 0;
            while i < len
                invariant
                    self.wf(),
                    len == self.chunks@.len(),
                    i <= len,
                    forall|j: int| 0 <= j < i ==> (#[trigger] self.runs()[j]).start < page@,
                decreases len - i,
            {
                let start: u64 = self.chunks[i].start().start();
                assert(self.runs()[i as int] == self.chunks@[i as int]@);
                if start == page.start() {
                    return Ok(i);
                }
                if start > page.start() {
                    return Err(i);
                }
                i = i + 1;
            }
            return Err(len);
        }
        let mut low: usize = 0;
        let mut high: usize = len;
        while low < high
            invariant
                self.wf(),
                len == self.chunks@.len(),
                low <= high <= len,
                forall|j: int| 0 <= j < low ==> (#[trigger] self.runs()[j]).start < page@,
                forall|j: int| high <= j < len ==> (#[trigger] self.runs()[j]).start > page@,
            decreases high - low,
        {
            let mid: usize = low + (high - low) / 2;
            let start: u64 = self.chunks[mid].start().start();
            assert(self.runs()[mid as int] == self.chunks@[mid as int]@);
            if start == page.start() {
                return Ok(mid);
            }
            if start < page.start() {
                low = mid + 1;
            } else {
                high = mid;
            }
        }
        Err(low)
    }

    /// What a search for the chunk that starts with a page has to find.
    spec fn is_search_result(&self, page: u64, res: Result<usize, usize>) -> bool {
        match res {
            Ok(idx) => idx < self.runs().len() && self.runs()[idx as int].start == page,
            Err(idx) => {
                &&& idx <= self.runs().len()
                &&& forall|j: int| 0 <= j < idx ==> (#[trigger] self.runs()[j]).start < page
                &&& forall|j: int|
                    idx <= j < self.runs().len() ==> (#[trigger] self.runs()[j]).start > page
            },
        }
    }

    /// The index that was remembered last. Other threads may change it at any time.
    fn recall(&self) -> usize {
        self.last_index.load(Ordering::Relaxed)
    }

    /// Remembers an index for the next lookup.
    fn remember(&self, idx: usize) {
        self.last_index.store(idx, Ordering::Relaxed)
    }

    /// Searches for the chunk that starts with a page, trying the chunk that was looked up last
    /// and its neighbour first.
    fn find_chunk_idx(&self, page: Page) -> (res: Result<usize, usize>)
        requires
            self.wf(),
        ensures
            self.is_search_result(page@, res),
    {
        let idx: usize = self.recall();
        if idx < self.chunks.len() {
            let start: u64 = self.chunks[idx].start().start();
            assert(self.runs()[idx as int] == self.chunks@[idx as int]@);
            if start == page.start() {
                return Ok(idx);
            }
            if start < page.start() {
                let next_idx: usize = idx + 1;
                if next_idx < self.chunks.len() {
                    let next_start: u64 = self.chunks[next_idx].start().start();
                    assert(self.runs()[next_idx as int] == self.chunks@[next_idx as int]@);
                    if next_start == page.start() {
                        return Ok(next_idx);
                    }
                    if next_start > page.start() {
                        return Err(next_idx);
                    }
                }
            }
        }
        let res: Result<usize, usize> = self.find_chunk_idx_impl(page);
        let idx: usize = match res {
            Ok(idx) => idx,
            Err(idx) => idx,
        };
        self.remember(idx);
        res
    }

    /// Finds the chunk of a page and the position of the page in it.
    fn find(&self, page: Page) -> (res: Option<(usize, usize)>)
        requires
            self.wf(),
        ensures
            match res {
                Some((idx, offset)) => {
                    &&& idx < self.runs().len()
                    &&& self.runs()[idx as int].covers(page@)
                    &&& offset == self.runs()[idx as int].offset(page@)
                    &&& offset < self.runs()[idx as int].values.len()
                },
                None => forall|i: int|
                    0 <= i < self.runs().len() ==> !(#[trigger] self.runs()[i]).covers(page@),
            },
    {
        let addr: u64 = page.start();
        match self.find_chunk_idx(page) {
            Ok(idx) => {
                assert(self.runs()[idx as int].wf());
                Some((idx, 0))
            },
            Err(idx) => {
                if idx == 0 {
                    return None;
                }
                let idx: usize = idx - 1;
                let chunk = &self.chunks[idx];
                assert(self.runs()[idx as int] == chunk@);
                let offset: u64 = page.distance_from(chunk.start);
                if offset < chunk.values.len() as u64 {
                    Some((idx, offset as usize))
                } else {
                    None
                }
            },
        }
    }

    /// The value of a page.
    pub fn get(&self, page: Page) -> (res: Option<&T>)
        requires
            self.wf(),
        ensures
            match res {
                Some(value) => self@.contains_key(page@) && *value == self@[page@],
                None => !self@.contains_key(page@),
            },
    {
        match self.find(page) {
            Some((idx, offset)) => {
                proof {
                    lemma_covered(self.runs(), idx as int, page@);
                }
                Some(&self.chunks[idx].values[offset])
            },
            None => None,
        }
    }

    /// The value of a page for modification.
    pub fn get_mut(&mut self, page: Page) -> (res: Option<&mut T>)
        requires
            old(self).wf(),
        ensures
            match res {
                Some(value) => {
                    &&& old(self)@.contains_key(page@)
                    &&& *value == old(self)@[page@]
                    &&& final(self).runs() == replace_value(old(self).runs(), page@, *final(value))
                    &&& final(self).wf()
                    &&& final(self)@ == old(self)@.insert(page@, *final(value))
                },
                None => !old(self)@.contains_key(page@) && *final(self) == *old(self),
            },
    {
        match self.find(page) {
            Some((idx, offset)) => {
                let ghost before = self.runs();
                proof {
                    lemma_covered(before, idx as int, page@);
                    lemma_unique(before, idx as int, run_of(before, page@), page@);
                }
                let res = &mut self.chunks[idx].values[offset];
                proof {
                    lemma_replace_value(before, page@, *final(res));
                }
                assert(after_borrow(self).runs() =~~= replace_value(before, page@, *final(res)));
                Some(res)
            },
            None => None,
        }
    }

    /// Inserts a value for a page. Inserting a page in front of the first run, with other pages
    /// between them, puts the new run behind the first one, which leaves the map unsorted.
    pub fn insert(&mut self, page: Page, value: T)
        requires
            old(self).wf(),
            page@ < LAST_PAGE,
            keeps_halves_apart(
                old(self).runs(),
                cursor_start(old(self).runs(), page@),
                page@,
            ),
        ensures
            final(self).runs() == insert_at(
                old(self).runs(),
                cursor_start(old(self).runs(), page@),
                page@,
                value,
            ).0,
            each_wf(final(self).runs()),
            old(self).runs().len() == 0 || old(self).runs()[0].start <= page@ + PAGE_SIZE ==> {
                &&& final(self).wf()
                &&& final(self)@ == old(self)@.insert(page@, value)
            },
    {
        let ghost runs = self.runs();
        proof {
            use_type_invariant(&page);
        }
        let mut cursor = self.insert_many(page);
        let ghost idx = cursor.idx as int;
        proof {
            lemma_cursor_start(runs, page@, idx);
        }
        cursor.insert(value);
        proof {
            if runs.len() == 0 || runs[0].start <= page@ + PAGE_SIZE {
                lemma_start_in_place(runs, page@, idx);
                lemma_insert_at(runs, idx, page@, value);
            }
        }
    }

    /// Inserts values for consecutive pages. The cursor that does so starts like one for a single
    /// page, and it doesn't notice runs that it runs into.
    pub fn insert_iter(&mut self, page: Page, values: Vec<T>)
        requires
            old(self).wf(),
            in_one_half(page@, values@.len() as int),
            touches_hole(page@, values@.len() as int) ==> all_keep_halves_apart(
                old(self).runs(),
                cursor_start(old(self).runs(), page@),
                page@,
                values@,
            ),
        ensures
            final(self).runs() == insert_all_at(
                old(self).runs(),
                cursor_start(old(self).runs(), page@),
                page@,
                values@,
            ),
            each_wf(final(self).runs()),
            (old(self).runs().len() == 0 || old(self).runs()[0].start <= page@ + PAGE_SIZE)
                && clear_ahead(
                old(self).runs(),
                cursor_start(old(self).runs(), page@),
                page@,
                values@.len() as int,
            ) ==> {
                &&& final(self).wf()
                &&& final(self)@ == with_values(old(self)@, page@, values@)
            },
    {
        let ghost runs = self.runs();
        proof {
            use_type_invariant(&page);
        }
        let mut cursor = self.insert_many(page);
        let ghost idx = cursor.idx as int;
        proof {
            lemma_cursor_start(runs, page@, idx);
            if !touches_hole(page@, values@.len() as int) {
                lemma_far_from_hole(runs, idx, page@, values@);
            }
        }
        let ghost len = values@.len();
        assert(values@.skip(0) =~= values@);
        for value in it: values
            invariant
                it.seq() == values@,
                it.index() <= len,
                len == values@.len(),
                addr::is_page(page@),
                in_one_half(page@, len as int),
                each_wf(cursor.page_map.runs()),
                cursor.idx <= cursor.page_map.runs().len(),
                it.index() < len ==> cursor.page@ == page@ + it.index() * PAGE_SIZE,
                all_keep_halves_apart(
                    cursor.page_map.runs(),
                    cursor.idx as int,
                    (page@ + it.index() * PAGE_SIZE) as u64,
                    values@.skip(it.index() as int),
                ),
                insert_all_at(
                    cursor.page_map.runs(),
                    cursor.idx as int,
                    (page@ + it.index() * PAGE_SIZE) as u64,
                    values@.skip(it.index() as int),
                ) == insert_all_at(runs, idx, page@, values@),
                *final(cursor.page_map) == *after_borrow(self),
        {
            let ghost at = cursor.page@;
            let ghost n = it.index() as int;
            proof {
                assert(cursor.page@ == (page@ + n * PAGE_SIZE) as u64);
                assert(values@.skip(n)[0] == value);
                assert(values@.skip(n).drop_first() =~= values@.skip(n + 1));
                assert((at + PAGE_SIZE) as u64 == (page@ + (n + 1) * PAGE_SIZE) as u64);
            }
            cursor.insert(value);
        }
        proof {
            assert(values@.skip(len as int) =~= Seq::empty());
            if (runs.len() == 0 || runs[0].start <= page@ + PAGE_SIZE) && clear_ahead(
                runs,
                idx,
                page@,
                len as int,
            ) {
                lemma_start_in_place(runs, page@, idx);
                lemma_insert_all_at(runs, idx, page@, values@);
            }
        }
    }

    /// Creates a cursor that inserts values for consecutive pages.
    pub fn insert_many<'a>(&'a mut self, page: Page) -> (res: InsertCursor<'a, T>)
        requires
            old(self).wf(),
        ensures
            *res.page_map == *old(self),
            *final(self) == *final(res.page_map),
            res.page == page,
            is_cursor_start(old(self).runs(), page@, res.idx as int),
    {
        let idx: usize = match self.find_chunk_idx(page) {
            Ok(idx) => idx,
            Err(idx) => idx.saturating_sub(1),
        };
        InsertCursor { page_map: self, idx, page }
    }

    /// Removes a page.
    pub fn remove(&mut self, page: Page)
        requires
            old(self).wf(),
        ensures
            final(self).wf(),
            final(self).runs() == all_remaining(old(self).runs(), page@, removal_end(page@, 1)),
            is_removal(old(self).runs(), final(self)@, page@, removal_end(page@, 1)),
    {
        self.remove_many(page, 1)
    }

    /// Removes consecutive pages. A run that starts behind the first of these pages and reaches
    /// past the last one is left alone, and so is the last page of the address space.
    pub fn remove_many(&mut self, page: Page, len: usize)
        requires
            old(self).wf(),
        ensures
            final(self).wf(),
            final(self).runs() == all_remaining(
                old(self).runs(),
                page@,
                removal_end(page@, len as int),
            ),
            is_removal(old(self).runs(), final(self)@, page@, removal_end(page@, len as int)),
    {
        let ghost runs = self.runs();
        let end: Page = match page.forward_checked(len as u64) {
            Some(end) => end,
            None => Page::containing_address(VirtAddr::new(u64::MAX)),
        };
        proof {
            use_type_invariant(&page);
            use_type_invariant(&end);
        }
        let mut idx: usize = match self.find_chunk_idx(page) {
            Ok(idx) => idx,
            Err(idx) => idx.saturating_sub(1),
        };
        let ghost mut done: Seq<Run<T>> = runs.take(idx as int);
        let ghost mut next: int = idx as int;
        proof {
            assert forall|i: int| 0 <= i < idx implies (#[trigger] runs[i]).end() <= page@ by {
                assert(runs[i].end() <= runs[idx as int].start);
            }
            lemma_nothing_removed(runs, done, next, page@, end@);
            lemma_kept_before(done, page@, end@);
            assert(self.runs() =~= done + runs.skip(next));
            if next == runs.len() {
                lemma_kept_behind(runs, next, page@, end@);
            }
        }
        while idx < self.chunks.len()
            invariant
                each_wf(runs),
                sorted(runs),
                page.wf(),
                end.wf(),
                page@ <= end@,
                0 <= next <= runs.len(),
                idx == done.len(),
                self.runs() == done + runs.skip(next),
                is_partial_removal(runs, done, next, page@, end@),
                done == all_remaining(runs.take(next), page@, end@),
                next == runs.len() ==> self.runs() == all_remaining(runs, page@, end@),
            ensures
                self.wf(),
                self.runs() == all_remaining(runs, page@, end@),
                is_removal(runs, self@, page@, end@),
            decreases runs.len() - next,
        {
            let ghost run = runs[next];
            assert(self.runs().len() == done.len() + runs.skip(next).len());
            assert(run.wf());
            assert(self.runs()[idx as int] == run);
            assert(self.chunks@[idx as int]@ == run);
            let ghost before = self.chunks@;
            assert(forall|j: int| 0 <= j < idx ==> (#[trigger] before[j])@ == done[j]) by {
                assert forall|j: int| 0 <= j < idx implies (#[trigger] before[j])@ == done[j] by {
                    assert(self.runs()[j] == done[j]);
                }
            }
            assert forall|j: int| idx <= j < before.len() implies (#[trigger] before[j])@
                == runs[j - idx + next] by {
                assert(self.runs()[j] == runs.skip(next)[j - idx]);
            }
            let chunk_start: u64 = self.chunks[idx].start().start();
            let chunk_end: u64 = self.chunks[idx].end().start();
            let ghost left = remaining(run, page@, end@);
            let ghost after = (done + left) + runs.skip(next + 1);
            if chunk_start < page.start() && chunk_end <= end.start() {
                let offset: u64 = page.distance_from(self.chunks[idx].start);
                if offset < self.chunks[idx].values.len() as u64 {
                    self.chunks[idx].values.truncate(offset as usize);
                }
                assert(self.chunks@[idx as int]@ =~= left[0]);
                assert(self.runs() =~= after);
                idx = idx + 1;
            } else if chunk_start < page.start() {
                let upper: u64 = end.distance_from(self.chunks[idx].start);
                let lower: u64 = page.distance_from(self.chunks[idx].start);
                assert(lower <= upper < self.chunks@[idx as int].values.len());
                let values: Vec<T> = self.chunks[idx].values.split_off(upper as usize);
                self.chunks[idx].values.truncate(lower as usize);
                self.chunks.insert(idx + 1, Chunk { start: end, values });
                assert(self.chunks.len() >= idx + 2);
                assert(self.chunks@[idx as int]@ =~= left[0]);
                assert(self.chunks@[idx + 1]@ =~= left[1]);
                assert(self.runs() =~= after);
                idx = idx + 2;
            } else if chunk_end <= end.start() {
                self.chunks.remove(idx);
                assert(self.runs() =~= after);
            } else if chunk_start == page.start() {
                let count: u64 = end.distance_from(self.chunks[idx].start);
                assert(count < self.chunks@[idx as int].values.len());
                let values: Vec<T> = self.chunks[idx].values.split_off(count as usize);
                self.chunks[idx].values = values;
                self.chunks[idx].start = end;
                assert(self.chunks@[idx as int]@ =~= left[0]);
                assert(self.runs() =~= after);
                idx = idx + 1;
            } else {
                proof {
                    lemma_rest_survives(runs, done, next, page@, end@);
                    lemma_kept_behind(runs, next, page@, end@);
                }
                break;
            }
            proof {
                lemma_remove_step(runs, done, next, page@, end@);
                assert(runs.take(next + 1).drop_last() =~= runs.take(next));
                done = done + left;
                next = next + 1;
                if next == runs.len() {
                    lemma_rest_survives(runs, done, next, page@, end@);
                    lemma_kept_behind(runs, next, page@, end@);
                }
            }
        }
    }

    /// The page and the values of a run. `None` if there are fewer runs.
    pub fn chunks_mut(&mut self, index: usize) -> (res: Option<(Page, &mut [T])>)
        ensures
            match res {
                Some((page, values)) => {
                    &&& index < old(self).runs().len()
                    &&& page@ == old(self).runs()[index as int].start
                    &&& values@ == old(self).runs()[index as int].values
                    &&& final(self).runs() == old(self).runs().update(
                        index as int,
                        Run { start: page@, values: final(values)@ },
                    )
                },
                None => index >= old(self).runs().len() && *final(self) == *old(self),
            },
    {
        let ghost before = self.runs();
        if index < self.chunks.len() {
            assert(before[index as int] == self.chunks@[index as int]@);
            let page: Page = self.chunks[index].start;
            let values = self.chunks[index].values.as_mut_slice();
            assert(after_borrow(self).runs() =~= before.update(
                index as int,
                Run { start: page@, values: final(values)@ },
            ));
            Some((page, values))
        } else {
            None
        }
    }

    /// The page and the value of an entry, counting entries in the order of their pages. `None`
    /// if there are fewer entries.
    pub fn iter_mut(&mut self, index: usize) -> (res: Option<(Page, &mut T)>)
        requires
            old(self).wf(),
        ensures
            match res {
                Some((page, value)) => {
                    &&& entry_page(old(self).runs(), index as int) == Some(page@)
                    &&& old(self)@.contains_key(page@)
                    &&& *value == old(self)@[page@]
                    &&& final(self).runs() == replace_value(old(self).runs(), page@, *final(value))
                    &&& final(self).wf()
                    &&& final(self)@ == old(self)@.insert(page@, *final(value))
                },
                None => entry_page(old(self).runs(), index as int) is None && *final(self) == *old(
                    self,
                ),
            },
    {
        let ghost runs = self.runs();
        let mut idx: usize = 0;
        let mut rest: usize = index;
        assert(runs.skip(0) =~= runs);
        while idx < self.chunks.len() && rest >= self.chunks[idx].values.len()
            invariant
                self.wf(),
                runs == self.runs(),
                self.runs() == old(self).runs(),
                *self == *old(self),
                idx <= runs.len(),
                entry_page(runs, index as int) == entry_page(runs.skip(idx as int), rest as int),
            decreases runs.len() - idx,
        {
            assert(runs[idx as int] == self.chunks@[idx as int]@);
            assert(runs.skip(idx as int)[0] == runs[idx as int]);
            assert(runs.skip(idx as int).drop_first() =~= runs.skip(idx + 1));
            rest = rest - self.chunks[idx].values.len();
            idx = idx + 1;
        }
        if idx < self.chunks.len() {
            let page: Page = self.chunks[idx].start.checked_add(rest as u64).unwrap();
            proof {
                assert(runs[idx as int] == self.chunks@[idx as int]@);
                assert(runs[idx as int].wf());
                assert(runs.skip(idx as int)[0] == runs[idx as int]);
                lemma_covered(runs, idx as int, page@);
            }
            match self.get_mut(page) {
                Some(value) => Some((page, value)),
                None => None,
            }
        } else {
            assert(runs.skip(idx as int).len() == 0);
            None
        }
    }
}

/// The page of an entry, counting entries in the order of the runs.
pub open spec fn entry_page<T>(runs: Seq<Run<T>>, index: int) -> Option<u64>
    decreases runs.len(),
{
    if runs.len() == 0 {
        None
    } else if index < runs[0].values.len() {
        Some((runs[0].start + index * PAGE_SIZE) as u64)
    } else {
        entry_page(runs.drop_first(), index - runs[0].values.len())
    }
}

impl<T> core::ops::Index<Page> for PageMap<T> {
    type Output = T;

    fn index(&self, index: Page) -> (res: &T)
        ensures
            *res == self@[index@],
    {
        self.get(index).unwrap()
    }
}

impl<T> vstd::std_specs::core::IndexSpecImpl<Page> for PageMap<T> {
    open spec fn index_req(&self, index: &Page) -> bool {
        self.wf() && self@.contains_key(index@)
    }
}

/// The runs after the value of a page has been replaced.
pub open spec fn replace_value<T>(runs: Seq<Run<T>>, page: u64, value: T) -> Seq<Run<T>> {
    let idx = run_of(runs, page);
    let run = runs[idx];
    runs.update(
        idx,
        Run { start: run.start, values: run.values.update(run.offset(page), value) },
    )
}

/// Replacing the value of a page changes the value of that page only.
proof fn lemma_replace_value<T>(runs: Seq<Run<T>>, page: u64, value: T)
    requires
        each_wf(runs),
        sorted(runs),
        has_page(runs, page),
    ensures
        each_wf(replace_value(runs, page, value)),
        sorted(replace_value(runs, page, value)),
        contents(replace_value(runs, page, value)) == contents(runs).insert(page, value),
{
    let after = replace_value(runs, page, value);
    let idx = run_of(runs, page);
    assert(each_wf(after));
    assert(sorted(after));
    lemma_covered(after, idx, page);
    assert forall|p: u64| contents(after).contains_key(p) == #[trigger] contents(
        runs,
    ).contains_key(p) by {
        if has_page(runs, p) {
            let i = run_of(runs, p);
            assert(after[i].covers(p));
        }
        if has_page(after, p) {
            let i = run_of(after, p);
            assert(runs[i].covers(p));
        }
    }
    assert forall|p: u64| has_page(runs, p) && p != page implies contents(after)[p] == contents(
        runs,
    )[p] by {
        let i = run_of(runs, p);
        assert(after[i].covers(p));
        lemma_covered(after, i, p);
        lemma_covered(runs, i, p);
    }
    assert(contents(after) =~= contents(runs).insert(page, value));
}

/// Inserts values for consecutive pages into a map.
pub struct InsertCursor<'a, T> {
    /// The map that is modified.
    pub page_map: &'a mut PageMap<T>,
    /// The index of the chunk that the cursor stands at.
    pub idx: usize,
    /// The page that the next value is inserted at.
    pub page: Page,
}

impl<'a, T> InsertCursor<'a, T> {
    /// Inserts a value and moves on to the next page.
    pub fn insert(&mut self, value: T)
        requires
            each_wf(old(self).page_map.runs()),
            old(self).idx <= old(self).page_map.runs().len(),
            old(self).page@ < LAST_PAGE,
            keeps_halves_apart(
                old(self).page_map.runs(),
                old(self).idx as int,
                old(self).page@,
            ),
        ensures
            (final(self).page_map.runs(), final(self).idx as int) == insert_at(
                old(self).page_map.runs(),
                old(self).idx as int,
                old(self).page@,
                value,
            ),
            Some(final(self).page@) == addr::forward(old(self).page@, PAGE_SIZE as int),
            each_wf(final(self).page_map.runs()),
            final(self).idx <= final(self).page_map.runs().len(),
            *final(final(self).page_map) == *final(old(self).page_map),
    {
        let ghost before = self.page_map.runs();
        let ghost first = self.page@;
        let idx: usize = self.idx;
        let next_page: Page = self.page.forward_checked(1).unwrap();
        let len: usize = self.page_map.chunks.len();
        let page: u64 = self.page.start();
        if idx < len {
            assert(before[idx as int] == self.page_map.chunks@[idx as int]@);
            assert(before[idx as int].wf());
            let start: u64 = self.page_map.chunks[idx].start().start();
            let end: u64 = self.page_map.chunks[idx].end().start();
            if end == page {
                self.page_map.chunks[idx].values.push(value);
                if idx + 1 < len && self.page_map.chunks[idx + 1].start.start()
                    == next_page.start() {
                    assert(before[idx + 1] == self.page_map.chunks@[idx + 1]@);
                    let mut next = self.page_map.chunks.remove(idx + 1);
                    self.page_map.chunks[idx].values.append(&mut next.values);
                }
            } else if end < page || start > page {
                if start == next_page.start() {
                    self.page_map.chunks[idx].start = self.page;
                    self.page_map.chunks[idx].values.insert(0, value);
                } else {
                    let mut values: Vec<T> = Vec::new();
                    values.push(value);
                    self.idx = idx + 1;
                    self.page_map.chunks.insert(idx + 1, Chunk { start: self.page, values });
                }
            } else {
                let offset: u64 = self.page.distance_from(self.page_map.chunks[idx].start);
                assert(offset < self.page_map.chunks@[idx as int].values.len());
                let offset: usize = offset as usize;
                self.page_map.chunks[idx].values[offset] = value;
            }
        } else {
            let mut values: Vec<T> = Vec::new();
            values.push(value);
            self.page_map.chunks.insert(idx, Chunk { start: self.page, values });
        }
        self.page = next_page;
        assert(self.page_map.runs() =~~= insert_at(before, idx as int, first, value).0);
        assert(each_wf(self.page_map.runs()));
    }
}

/// Inserting a page where it belongs adds an entry and changes nothing else.
proof fn lemma_insert_at<T>(runs: Seq<Run<T>>, idx: int, page: u64, value: T)
    requires
        each_wf(runs),
        sorted(runs),
        in_place(runs, idx, page),
        addr::is_page(page),
        page < LAST_PAGE,
        keeps_halves_apart(runs, idx, page),
    ensures
        each_wf(insert_at(runs, idx, page, value).0),
        sorted(insert_at(runs, idx, page, value).0),
        contents(insert_at(runs, idx, page, value).0) == contents(runs).insert(page, value),
{
    let (after, after_idx) = insert_at(runs, idx, page, value);
    if idx < runs.len() {
        let run = runs[idx];
        assert(run.wf());
        if run.end() == page {
            if idx + 1 < runs.len() && runs[idx + 1].start == page + PAGE_SIZE {
                lemma_joined(runs, idx, page, value);
            } else {
                lemma_same_count(runs, after, idx, page, value);
            }
        } else if run.end() < page || run.start > page {
            if run.start == page + PAGE_SIZE {
                lemma_same_count(runs, after, idx, page, value);
            } else {
                lemma_inserted(runs, idx + 1, page, value);
            }
        } else {
            lemma_same_count(runs, after, idx, page, value);
        }
    } else {
        lemma_inserted(runs, idx, page, value);
    }
}

/// `lemma_insert_at` where the number of runs stays the same.
proof fn lemma_same_count<T>(
    runs: Seq<Run<T>>,
    after: Seq<Run<T>>,
    idx: int,
    page: u64,
    value: T,
)
    requires
        each_wf(runs),
        sorted(runs),
        in_place(runs, idx, page),
        idx < runs.len(),
        addr::is_page(page),
        page < LAST_PAGE,
        after == runs.update(idx, after[idx]),
        after[idx].wf(),
        after[idx].covers(page),
        after[idx].values[after[idx].offset(page)] == value,
        forall|p: u64|
            p != page ==> (#[trigger] after[idx].covers(p) <==> runs[idx].covers(p)),
        forall|p: u64|
            #![trigger after[idx].offset(p)]
            p != page && runs[idx].covers(p) ==> after[idx].values[after[idx].offset(p)]
                == runs[idx].values[runs[idx].offset(p)],
        idx > 0 ==> runs[idx - 1].end() <= after[idx].start,
        idx + 1 < runs.len() ==> after[idx].end() <= runs[idx + 1].start,
    ensures
        each_wf(after),
        sorted(after),
        contents(after) == contents(runs).insert(page, value),
{
    assert(each_wf(after));
    assert forall|i: int, j: int| 0 <= i < j < after.len() implies (#[trigger] after[i]).end() <= (
    #[trigger] after[j]).start by {
        assert(runs[i].wf() && runs[j].wf());
        if i == idx && j > idx + 1 {
            assert(runs[idx + 1].end() <= runs[j].start);
            assert(runs[idx + 1].wf());
        }
        if j == idx && i < idx - 1 {
            assert(runs[i].end() <= runs[idx - 1].start);
            assert(runs[idx - 1].wf());
        }
    }
    lemma_covered(after, idx, page);
    assert forall|p: u64| p != page implies has_page(after, p) == #[trigger] has_page(runs, p) by {
        if has_page(runs, p) {
            let i = run_of(runs, p);
            assert(after[i].covers(p));
        }
        if has_page(after, p) {
            let i = run_of(after, p);
            assert(runs[i].covers(p));
        }
    }
    assert forall|p: u64| has_page(runs, p) && p != page implies contents(after)[p] == contents(
        runs,
    )[p] by {
        let i = run_of(runs, p);
        assert(after[i].covers(p));
        lemma_covered(after, i, p);
        lemma_covered(runs, i, p);
        if i == idx {
            let _ = after[idx].offset(p);
        }
    }
    assert(contents(after) =~= contents(runs).insert(page, value));
}

/// `lemma_insert_at` where two runs become one.
proof fn lemma_joined<T>(runs: Seq<Run<T>>, idx: int, page: u64, value: T)
    requires
        each_wf(runs),
        sorted(runs),
        0 <= idx,
        idx + 1 < runs.len(),
        addr::is_page(page),
        runs[idx].end() == page,
        runs[idx + 1].start == page + PAGE_SIZE,
    ensures
        each_wf(insert_at(runs, idx, page, value).0),
        sorted(insert_at(runs, idx, page, value).0),
        contents(insert_at(runs, idx, page, value).0) == contents(runs).insert(page, value),
{
    let after = insert_at(runs, idx, page, value).0;
    let run = runs[idx];
    let next = runs[idx + 1];
    assert(run.wf() && next.wf());
    assert(after[idx].end() == next.end());
    assert(after[idx].wf());
    assert(each_wf(after));
    assert forall|i: int, j: int| 0 <= i < j < after.len() implies (#[trigger] after[i]).end() <= (
    #[trigger] after[j]).start by {
        let i0 = if i <= idx { i } else { i + 1 };
        let j0 = if j <= idx { j } else { j + 1 };
        assert(runs[i0].end() <= runs[j0].start);
        if i == idx {
            assert(next.end() <= runs[j0].start);
        }
    }
    lemma_covered(after, idx, page);
    assert forall|p: u64| p != page implies has_page(after, p) == #[trigger] has_page(runs, p) by {
        if has_page(runs, p) {
            let i = run_of(runs, p);
            let k = if i <= idx { i } else { i - 1 };
            assert(after[k].covers(p));
        }
        if has_page(after, p) {
            let k = run_of(after, p);
            if k == idx {
                assert(run.covers(p) || next.covers(p));
            } else {
                let i = if k < idx { k } else { k + 1 };
                assert(runs[i].covers(p));
            }
        }
    }
    assert forall|p: u64| has_page(runs, p) && p != page implies contents(after)[p] == contents(
        runs,
    )[p] by {
        let i = run_of(runs, p);
        let k = if i <= idx { i } else { i - 1 };
        assert(after[k].covers(p));
        lemma_covered(after, k, p);
        lemma_covered(runs, i, p);
    }
    assert(contents(after) =~= contents(runs).insert(page, value));
}

/// `lemma_insert_at` where a run is added.
#[verifier::rlimit(20)]
proof fn lemma_inserted<T>(runs: Seq<Run<T>>, at: int, page: u64, value: T)
    requires
        each_wf(runs),
        sorted(runs),
        0 <= at <= runs.len(),
        addr::is_page(page),
        page < LAST_PAGE,
        forall|j: int| 0 <= j < at ==> (#[trigger] runs[j]).end() <= page,
        forall|j: int| at <= j < runs.len() ==> (#[trigger] runs[j]).start > page,
    ensures
        each_wf(runs.insert(at, single(page, value))),
        sorted(runs.insert(at, single(page, value))),
        contents(runs.insert(at, single(page, value))) == contents(runs).insert(page, value),
{
    let after = runs.insert(at, single(page, value));
    assert forall|i: int| 0 <= i < after.len() implies (#[trigger] after[i]).wf() by {
        if i < at {
            assert(after[i] == runs[i]);
        } else if i > at {
            assert(after[i] == runs[i - 1]);
        }
    }
    assert forall|i: int, j: int| 0 <= i < j < after.len() implies (#[trigger] after[i]).end() <= (
    #[trigger] after[j]).start by {
        let i0 = if i <= at { i } else { i - 1 };
        let j0 = if j <= at { j } else { j - 1 };
        if i == at {
            assert(runs[j0].start > page);
            assert(runs[j0].wf());
        } else if j == at {
            assert(runs[i0].end() <= page);
        } else {
            assert(runs[i0].end() <= runs[j0].start);
        }
    }
    lemma_covered(after, at, page);
    assert forall|p: u64| p != page implies has_page(after, p) == #[trigger] has_page(runs, p) by {
        if has_page(runs, p) {
            let i = run_of(runs, p);
            let k = if i < at { i } else { i + 1 };
            assert(after[k].covers(p));
        }
        if has_page(after, p) {
            let k = run_of(after, p);
            assert(k != at);
            let i = if k < at { k } else { k - 1 };
            assert(runs[i].covers(p));
        }
    }
    assert forall|p: u64| has_page(runs, p) && p != page implies contents(after)[p] == contents(
        runs,
    )[p] by {
        let i = run_of(runs, p);
        let k = if i < at { i } else { i + 1 };
        assert(after[k].covers(p));
        lemma_covered(after, k, p);
        lemma_covered(runs, i, p);
    }
    assert(contents(after) =~= contents(runs).insert(page, value));
}

/// There is only one run that a cursor can start at.
proof fn lemma_cursor_start<T>(runs: Seq<Run<T>>, page: u64, idx: int)
    requires
        each_wf(runs),
        sorted(runs),
        is_cursor_start(runs, page, idx),
    ensures
        idx == cursor_start(runs, page),
{
    let other = cursor_start(runs, page);
    assert(is_cursor_start(runs, page, other));
    if idx < other {
        assert(runs[other].start > page);
    }
    if other < idx {
        assert(runs[idx].start > page);
    }
}

/// A cursor that starts behind the first page of the map, or right in front of it, stands where
/// its page belongs.
proof fn lemma_start_in_place<T>(runs: Seq<Run<T>>, page: u64, idx: int)
    requires
        each_wf(runs),
        sorted(runs),
        addr::is_page(page),
        is_cursor_start(runs, page, idx),
        runs.len() == 0 || runs[0].start <= page + PAGE_SIZE,
    ensures
        in_place(runs, idx, page),
{
    if idx < runs.len() {
        assert(runs[idx].wf());
        assert forall|j: int| 0 <= j < idx implies (#[trigger] runs[j]).end() <= page by {
            assert(runs[j].end() <= runs[idx].start);
        }
    }
}

/// Pages that aren't next to the hole between the halves don't join pages of both halves.
proof fn lemma_far_from_hole<T>(runs: Seq<Run<T>>, idx: int, page: u64, values: Seq<T>)
    requires
        values.len() > 0 ==> {
            &&& addr::is_page(page)
            &&& in_one_half(page, values.len() as int)
            &&& !touches_hole(page, values.len() as int)
        },
    ensures
        all_keep_halves_apart(runs, idx, page, values),
    decreases values.len(),
{
    if values.len() > 0 {
        let (after, after_idx) = insert_at(runs, idx, page, values[0]);
        let next = (page + PAGE_SIZE) as u64;
        lemma_far_from_hole(after, after_idx, next, values.drop_first());
    }
}

/// Inserting consecutive pages with nothing in the way sets the values of these pages and changes
/// nothing else.
proof fn lemma_insert_all_at<T>(runs: Seq<Run<T>>, idx: int, page: u64, values: Seq<T>)
    requires
        each_wf(runs),
        sorted(runs),
        values.len() > 0 ==> in_place(runs, idx, page),
        addr::is_page(page) || values.len() == 0,
        in_one_half(page, values.len() as int) || values.len() == 0,
        all_keep_halves_apart(runs, idx, page, values),
        clear_ahead(runs, idx, page, values.len() as int),
    ensures
        each_wf(insert_all_at(runs, idx, page, values)),
        sorted(insert_all_at(runs, idx, page, values)),
        contents(insert_all_at(runs, idx, page, values)) == with_values(
            contents(runs),
            page,
            values,
        ),
    decreases values.len(),
{
    if values.len() == 0 {
        assert(with_values(contents(runs), page, values) =~= contents(runs));
    } else {
        let value = values[0];
        let rest = values.drop_first();
        let next = (page + PAGE_SIZE) as u64;
        let (after, after_idx) = insert_at(runs, idx, page, value);
        lemma_insert_at(runs, idx, page, value);
        lemma_next_in_place(runs, idx, page, value, values.len() as int);
        lemma_insert_all_at(after, after_idx, next, rest);
        let left = with_values(contents(after), next, rest);
        let right = with_values(contents(runs), page, values);
        assert forall|p: u64| left.contains_key(p) == #[trigger] right.contains_key(p) by {
            if page < p < page + values.len() * PAGE_SIZE && p % PAGE_SIZE == 0 {
                assert(p >= page + PAGE_SIZE);
            }
        }
        assert forall|p: u64| right.contains_key(p) implies #[trigger] left[p] == right[p] by {
            if page < p < page + values.len() * PAGE_SIZE && p % PAGE_SIZE == 0 {
                assert(p >= page + PAGE_SIZE);
                assert((p - next) / PAGE_SIZE as int + 1 == (p - page) / PAGE_SIZE as int);
            }
        }
        assert(left =~= right);
    }
}

/// After inserting one of several consecutive pages the cursor stands where the next one belongs.
proof fn lemma_next_in_place<T>(runs: Seq<Run<T>>, idx: int, page: u64, value: T, count: int)
    requires
        each_wf(runs),
        sorted(runs),
        in_place(runs, idx, page),
        addr::is_page(page),
        count > 0,
        in_one_half(page, count),
        keeps_halves_apart(runs, idx, page),
        clear_ahead(runs, idx, page, count),
    ensures
        ({
            let (after, after_idx) = insert_at(runs, idx, page, value);
            let next = (page + PAGE_SIZE) as u64;
            &&& count > 1 ==> in_place(after, after_idx, next)
            &&& clear_ahead(after, after_idx, next, count - 1)
        }),
{
    let (after, after_idx) = insert_at(runs, idx, page, value);
    let next = (page + PAGE_SIZE) as u64;
    lemma_insert_at(runs, idx, page, value);
    let limit = page + count * PAGE_SIZE;
    if idx < runs.len() {
        let run = runs[idx];
        assert(run.wf());
        if run.end() == page && idx + 1 < runs.len() && runs[idx + 1].start == page + PAGE_SIZE {
            assert(after[idx].end() == runs[idx + 1].end());
            assert(runs[idx + 1].wf());
            assert forall|i: int, j: int|
                idx <= i < j < after.len() && after[j].start < limit implies (
            #[trigger] after[i]).end() < (#[trigger] after[j]).start by {
                assert(runs[i + 1].end() < runs[j + 1].start);
            }
        } else if run.end() < page || (run.start > page && run.start != page + PAGE_SIZE) {
            assert forall|i: int, j: int|
                idx + 1 <= i < j < after.len() && after[j].start < limit implies (
            #[trigger] after[i]).end() < (#[trigger] after[j]).start by {
                assert(runs[j - 1].wf());
                if i > idx + 1 {
                    assert(runs[i - 1].end() < runs[j - 1].start);
                } else {
                    assert(after[i].end() == next);
                    assert(runs[j - 1].start > page);
                    if j > idx + 2 {
                        assert(runs[idx + 1].end() <= runs[j - 1].start);
                        assert(runs[idx + 1].wf());
                    }
                }
            }
        } else {
            assert forall|i: int, j: int|
                idx <= i < j < after.len() && after[j].start < limit implies (
            #[trigger] after[i]).end() < (#[trigger] after[j]).start by {
                assert(runs[j].wf());
                assert(runs[i].end() < runs[j].start);
                if i == idx && j > idx + 1 {
                    assert(runs[idx + 1].end() <= runs[j].start);
                    assert(runs[idx + 1].wf());
                }
            }
        }
    }
}

/// Runs that end before the removed pages stay as they are.
proof fn lemma_nothing_removed<T>(
    runs: Seq<Run<T>>,
    done: Seq<Run<T>>,
    next: int,
    start: u64,
    end: u64,
)
    requires
        each_wf(runs),
        sorted(runs),
        0 <= next <= runs.len(),
        done == runs.take(next),
        forall|i: int| 0 <= i < next ==> (#[trigger] runs[i]).end() <= start,
    ensures
        is_partial_removal(runs, done, next, start, end),
{
    assert forall|i: int, page: u64|
        0 <= i < next && (#[trigger] runs[i]).covers(page) implies #[trigger] has_page(
        done,
        page,
    ) by {
        assert(done[i].covers(page));
    }
    assert forall|page: u64| #[trigger] has_page(done, page) implies has_page(runs, page) && 0
        <= run_of(runs, page) < next && value_of(done, page) == value_of(runs, page) by {
        let i = run_of(done, page);
        assert(runs[i].covers(page));
        lemma_unique(runs, i, run_of(runs, page), page);
    }
}

/// Runs that end before the removed pages are left as they are.
proof fn lemma_kept_before<T>(runs: Seq<Run<T>>, start: u64, end: u64)
    requires
        each_wf(runs),
        forall|i: int| 0 <= i < runs.len() ==> (#[trigger] runs[i]).end() <= start,
    ensures
        all_remaining(runs, start, end) == runs,
    decreases runs.len(),
{
    if runs.len() > 0 {
        let rest = runs.drop_last();
        assert forall|i: int| 0 <= i < rest.len() implies (#[trigger] rest[i]).end() <= start
            && rest[i].wf() by {
            assert(rest[i] == runs[i]);
        }
        lemma_kept_before(rest, start, end);
        assert(runs.last().wf());
        assert(rest + seq![runs.last()] =~= runs);
    } else {
        assert(all_remaining(runs, start, end) =~= runs);
    }
}

/// Runs from a run on that starts behind the first removed page and reaches past the last one are
/// left as they are.
proof fn lemma_kept_behind<T>(runs: Seq<Run<T>>, next: int, start: u64, end: u64)
    requires
        each_wf(runs),
        sorted(runs),
        0 <= next <= runs.len(),
        next < runs.len() ==> runs[next].start > start && runs[next].end() > end,
    ensures
        all_remaining(runs, start, end) == all_remaining(runs.take(next), start, end) + runs.skip(
            next,
        ),
    decreases runs.len(),
{
    if next == runs.len() {
        assert(runs.take(next) =~= runs);
        assert(runs.skip(next) =~= seq![]);
        assert(all_remaining(runs, start, end) + runs.skip(next) =~= all_remaining(
            runs,
            start,
            end,
        ));
    } else {
        let rest = runs.drop_last();
        let last = runs.last();
        assert forall|i: int| 0 <= i < rest.len() implies (#[trigger] rest[i]).wf() by {
            assert(rest[i] == runs[i]);
        }
        lemma_kept_behind(rest, next, start, end);
        assert(rest.take(next) =~= runs.take(next));
        assert(last.wf() && runs[next].wf());
        if next < rest.len() {
            assert(runs[next].end() <= last.start);
        }
        assert(remaining(last, start, end) == seq![last]);
        assert(rest.skip(next) + seq![last] =~= runs.skip(next));
        assert(all_remaining(rest.take(next), start, end) + rest.skip(next) + seq![last]
            =~= all_remaining(runs.take(next), start, end) + runs.skip(next));
    }
}

/// What is left of two sequences of runs is what is left of each of them.
proof fn lemma_remaining_parts<T>(a: Seq<Run<T>>, b: Seq<Run<T>>, start: u64, end: u64)
    ensures
        all_remaining(a + b, start, end) == all_remaining(a, start, end) + all_remaining(
            b,
            start,
            end,
        ),
    decreases b.len(),
{
    if b.len() == 0 {
        assert(a + b =~= a);
        assert(all_remaining(a, start, end) + all_remaining(b, start, end) =~= all_remaining(
            a,
            start,
            end,
        ));
    } else {
        lemma_remaining_parts(a, b.drop_last(), start, end);
        assert((a + b).drop_last() =~= a + b.drop_last());
        assert((a + b).last() == b.last());
        assert(all_remaining(a + b, start, end) =~= all_remaining(a, start, end) + all_remaining(
            b,
            start,
            end,
        ));
    }
}

/// Nothing more is removed from what is left of a run.
proof fn lemma_remaining_twice<T>(run: Run<T>, start: u64, end: u64)
    requires
        run.wf(),
        start <= end,
        addr::is_page(start),
        addr::is_page(end),
    ensures
        all_remaining(remaining(run, start, end), start, end) == remaining(run, start, end),
{
    let left = remaining(run, start, end);
    lemma_remaining(run, start, end);
    assert forall|i: int| 0 <= i < left.len() implies remaining(
        #[trigger] left[i],
        start,
        end,
    ) =~~= seq![left[i]] by {
        assert(left[i].wf());
        if run.start < start && run.end() > start && i == 0 {
            assert(left[0].end() == start);
        } else if left[i].start == end && start == end {
            assert(left[i].values.skip(0) =~= left[i].values);
        }
    }
    reveal_with_fuel(all_remaining, 3);
    if left.len() == 1 {
        assert(left.drop_last() =~= seq![]);
        assert(all_remaining(left, start, end) =~= left);
    } else if left.len() == 2 {
        assert(left.drop_last() =~= seq![left[0]]);
        assert(left.drop_last().drop_last() =~= seq![]);
        assert(all_remaining(left, start, end) =~= left);
    }
}

/// Removing the same pages twice is the same as removing them once.
pub proof fn law_removing_twice_is_removing_once<T>(runs: Seq<Run<T>>, page: u64, len: int)
    requires
        each_wf(runs),
        addr::is_page(page),
        0 <= len,
    ensures
        all_remaining(
            all_remaining(runs, page, removal_end(page, len)),
            page,
            removal_end(page, len),
        ) == all_remaining(runs, page, removal_end(page, len)),
    decreases runs.len(),
{
    let end = removal_end(page, len);
    if runs.len() > 0 {
        let rest = runs.drop_last();
        assert forall|i: int| 0 <= i < rest.len() implies (#[trigger] rest[i]).wf() by {
            assert(rest[i] == runs[i]);
        }
        law_removing_twice_is_removing_once(rest, page, len);
        assert(runs.last().wf());
        lemma_remaining_twice(runs.last(), page, end);
        lemma_remaining_parts(
            all_remaining(rest, page, end),
            remaining(runs.last(), page, end),
            page,
            end,
        );
    }
}

/// What is left of a run are the pages that survive, with their values.
proof fn lemma_remaining<T>(run: Run<T>, start: u64, end: u64)
    requires
        run.wf(),
        start <= end,
        addr::is_page(start),
        addr::is_page(end),
    ensures
        each_wf(remaining(run, start, end)),
        sorted(remaining(run, start, end)),
        forall|i: int|
            0 <= i < remaining(run, start, end).len() ==> run.start <= (#[trigger] remaining(
                run,
                start,
                end,
            )[i]).start && remaining(run, start, end)[i].end() <= run.end(),
        forall|page: u64| #[trigger]
            has_page(remaining(run, start, end), page) <==> run.covers(page) && survives(
                run,
                page,
                start,
                end,
            ),
        forall|page: u64| #[trigger]
            has_page(remaining(run, start, end), page) ==> value_of(
                remaining(run, start, end),
                page,
            ) == run.values[run.offset(page)],
{
    let rest = remaining(run, start, end);
    if run.start < start < run.end() {
        assert(rest[0].end() == start);
    }
    if rest.len() > 0 && rest[rest.len() - 1].start == end && run.start <= start && run.end() > end {
        assert(rest[rest.len() - 1].end() == run.end());
    }
    assert forall|page: u64| #[trigger] has_page(rest, page) <==> run.covers(page) && survives(
        run,
        page,
        start,
        end,
    ) by {
        if run.covers(page) && survives(run, page, start, end) {
            if run.start < start && run.end() > start && page >= start {
                assert(rest[1].covers(page));
            } else {
                assert(rest[0].covers(page));
            }
        }
        if has_page(rest, page) {
            let i = run_of(rest, page);
            assert(rest[i].covers(page));
        }
    }
    assert forall|page: u64| #[trigger] has_page(rest, page) implies value_of(rest, page)
        == run.values[run.offset(page)] by {
        let i = run_of(rest, page);
        assert(rest[i].covers(page));
        if rest[i].start == end && run.start <= start && run.end() > end {
            assert(run.offset(end) + rest[i].offset(page) == run.offset(page));
        }
    }
}

/// One more run is processed.
proof fn lemma_remove_step<T>(
    runs: Seq<Run<T>>,
    done: Seq<Run<T>>,
    next: int,
    start: u64,
    end: u64,
)
    requires
        each_wf(runs),
        sorted(runs),
        0 <= next < runs.len(),
        start <= end,
        addr::is_page(start),
        addr::is_page(end),
        is_partial_removal(runs, done, next, start, end),
    ensures
        is_partial_removal(runs, done + remaining(runs[next], start, end), next + 1, start, end),
{
    let run = runs[next];
    let rest = remaining(run, start, end);
    let after = done + rest;
    assert(run.wf());
    lemma_remaining(run, start, end);
    assert(each_wf(after)) by {
        assert forall|i: int| 0 <= i < after.len() implies (#[trigger] after[i]).wf() by {
            if i < done.len() {
                assert(after[i] == done[i]);
            } else {
                assert(after[i] == rest[i - done.len()]);
            }
        }
    }
    assert forall|i: int, j: int| 0 <= i < j < after.len() implies (#[trigger] after[i]).end() <= (
    #[trigger] after[j]).start by {
        if j < done.len() {
            assert(done[i].end() <= done[j].start);
        } else if i < done.len() {
            assert(done[i].end() <= runs[next].start);
            assert(after[j] == rest[j - done.len()]);
        } else {
            assert(after[i] == rest[i - done.len()]);
            assert(after[j] == rest[j - done.len()]);
        }
    }
    assert forall|i: int, j: int|
        0 <= i < after.len() && next + 1 <= j < runs.len() implies (#[trigger] after[i]).end() <= (
    #[trigger] runs[j]).start by {
        if i < done.len() {
            assert(done[i].end() <= runs[j].start);
        } else {
            assert(after[i] == rest[i - done.len()]);
            assert(runs[next].end() <= runs[j].start);
        }
    }
    assert forall|page: u64| #[trigger]
        has_page(after, page) <==> has_page(done, page) || has_page(rest, page) by {
        if has_page(done, page) {
            let i = run_of(done, page);
            assert(after[i].covers(page));
        }
        if has_page(rest, page) {
            let i = run_of(rest, page);
            assert(after[done.len() + i].covers(page));
        }
        if has_page(after, page) {
            let i = run_of(after, page);
            if i < done.len() {
                assert(done[i].covers(page));
            } else {
                assert(rest[i - done.len()].covers(page));
            }
        }
    }
    assert forall|i: int, page: u64|
        0 <= i < next + 1 && (#[trigger] runs[i]).covers(page) implies (#[trigger] has_page(
        after,
        page,
    ) <==> survives(runs[i], page, start, end)) by {
        assert(has_page(rest, page) <==> run.covers(page) && survives(run, page, start, end));
        if i == next {
            if has_page(done, page) {
                lemma_unique(runs, i, run_of(runs, page), page);
            }
        } else {
            if run.covers(page) {
                lemma_unique(runs, i, next, page);
            }
            assert(has_page(done, page) <==> survives(runs[i], page, start, end));
        }
    }
    assert forall|page: u64| #[trigger] has_page(after, page) implies has_page(runs, page) && 0
        <= run_of(runs, page) < next + 1 && value_of(after, page) == value_of(runs, page) by {
        let i = run_of(after, page);
        if i < done.len() {
            assert(done[i].covers(page));
            lemma_covered(done, i, page);
            assert(has_page(done, page));
        } else {
            assert(rest[i - done.len()].covers(page));
            assert(has_page(rest, page));
            assert(run.covers(page));
            lemma_unique(runs, next, run_of(runs, page), page);
            lemma_covered(rest, i - done.len(), page);
        }
    }
}

/// The runs that haven't been processed stay as they are.
proof fn lemma_rest_survives<T>(
    runs: Seq<Run<T>>,
    done: Seq<Run<T>>,
    next: int,
    start: u64,
    end: u64,
)
    requires
        each_wf(runs),
        sorted(runs),
        0 <= next <= runs.len(),
        is_partial_removal(runs, done, next, start, end),
        next < runs.len() ==> runs[next].start > start && runs[next].end() > end,
    ensures
        each_wf(done + runs.skip(next)),
        sorted(done + runs.skip(next)),
        is_removal(runs, contents(done + runs.skip(next)), start, end),
{
    let rest = runs.skip(next);
    let after = done + rest;
    assert forall|i: int| 0 <= i < after.len() implies (#[trigger] after[i]).wf() by {
        if i < done.len() {
            assert(after[i] == done[i]);
        } else {
            assert(after[i] == runs[i - done.len() + next]);
        }
    }
    assert forall|i: int, j: int| 0 <= i < j < after.len() implies (#[trigger] after[i]).end() <= (
    #[trigger] after[j]).start by {
        if j < done.len() {
            assert(done[i].end() <= done[j].start);
        } else if i < done.len() {
            assert(done[i].end() <= runs[j - done.len() + next].start);
        } else {
            assert(runs[i - done.len() + next].end() <= runs[j - done.len() + next].start);
        }
    }
    assert forall|page: u64|
        has_page(runs, page) && run_of(runs, page) >= next implies #[trigger] survives(
        runs[run_of(runs, page)],
        page,
        start,
        end,
    ) by {
        let i = run_of(runs, page);
        if i > next {
            assert(runs[next].end() <= runs[i].start);
        }
    }
    assert forall|page: u64| #[trigger] contents(after).contains_key(page) <==> has_page(runs, page)
        && survives(runs[run_of(runs, page)], page, start, end) by {
        if has_page(after, page) {
            let i = run_of(after, page);
            if i < done.len() {
                assert(done[i].covers(page));
                assert(has_page(done, page));
            } else {
                let j = i - done.len() + next;
                assert(runs[j].covers(page));
                lemma_unique(runs, j, run_of(runs, page), page);
            }
        }
        if has_page(runs, page) && survives(runs[run_of(runs, page)], page, start, end) {
            let j = run_of(runs, page);
            if j < next {
                assert(runs[j].covers(page));
                assert(has_page(done, page));
                let i = run_of(done, page);
                assert(after[i].covers(page));
            } else {
                assert(after[j - next + done.len()].covers(page));
            }
        }
    }
    assert forall|page: u64| #[trigger] contents(after).contains_key(page) implies contents(
        after,
    )[page] == contents(runs)[page] by {
        let i = run_of(after, page);
        if i < done.len() {
            assert(done[i].covers(page));
            lemma_covered(done, i, page);
            assert(has_page(done, page));
        } else {
            let j = i - done.len() + next;
            assert(runs[j].covers(page));
            lemma_unique(runs, j, run_of(runs, page), page);
        }
    }
}

/// Consecutive pages that are inserted into an empty map are stored as one run.
pub proof fn law_consecutive_pages_are_one_run<T>(page: u64, values: Seq<T>)
    requires
        values.len() > 0,
        page + values.len() * PAGE_SIZE <= u64::MAX,
    ensures
        insert_all_at(Seq::<Run<T>>::empty(), 0, page, values) == seq![Run { start: page, values }],
{
    let first = seq![Run { start: page, values: values.take(1) }];
    assert(insert_at(Seq::<Run<T>>::empty(), 0, page, values[0]).0 =~~= first);
    lemma_append_run(page, values, 1);
    assert(values.drop_first() =~= values.skip(1));
}

proof fn lemma_append_run<T>(page: u64, values: Seq<T>, count: int)
    requires
        1 <= count <= values.len(),
        page + values.len() * PAGE_SIZE <= u64::MAX,
    ensures
        insert_all_at(
            seq![Run { start: page, values: values.take(count) }],
            0,
            (page + count * PAGE_SIZE) as u64,
            values.skip(count),
        ) == seq![Run { start: page, values }],
    decreases values.len() - count,
{
    let runs = seq![Run { start: page, values: values.take(count) }];
    if count == values.len() {
        assert(values.take(count) =~= values);
        assert(values.skip(count).len() == 0);
    } else {
        let next = (page + count * PAGE_SIZE) as u64;
        assert(runs[0].end() == next);
        assert(insert_at(runs, 0, next, values[count]).0 =~~= seq![
            Run { start: page, values: values.take(count + 1) },
        ]);
        assert(values.skip(count)[0] == values[count]);
        assert(values.skip(count).drop_first() =~= values.skip(count + 1));
        lemma_append_run(page, values, count + 1);
    }
}

/// If no run that starts behind the first removed page reaches past the last one, none of the
/// removed pages is left, and all other pages keep their values.
pub proof fn law_removed_pages_are_gone<T>(
    runs: Seq<Run<T>>,
    after: Map<u64, T>,
    start: u64,
    end: u64,
)
    requires
        is_removal(runs, after, start, end),
        forall|i: int|
            0 <= i < runs.len() ==> !(start < (#[trigger] runs[i]).start < end && end
                < runs[i].end()),
    ensures
        forall|page: u64| start <= page < end ==> !#[trigger] after.contains_key(page),
        forall|page: u64|
            page < start || page >= end ==> (#[trigger] after.contains_key(page)
                <==> contents(runs).contains_key(page)),
        forall|page: u64| #[trigger]
            after.contains_key(page) ==> after[page] == contents(runs)[page],
{
    assert forall|page: u64| start <= page < end implies !#[trigger] after.contains_key(page) by {
        if has_page(runs, page) {
            let i = run_of(runs, page);
            assert(runs[i].covers(page));
        }
    }
}

/// A run holds the values of consecutive pages, and a page that belongs to no run has no value.
pub proof fn law_values_of_runs<T>(runs: Seq<Run<T>>, i: int, k: int, page: u64)
    requires
        each_wf(runs),
        sorted(runs),
    ensures
        0 <= i < runs.len() && 0 <= k < runs[i].values.len() ==> contents(runs).contains_key(
            (runs[i].start + k * 4096) as u64,
        ) && contents(runs)[(runs[i].start + k * 4096) as u64] == runs[i].values[k],
        page % 4096 != 0 ==> !contents(runs).contains_key(page),
        (forall|j: int|
            0 <= j < runs.len() ==> page < (#[trigger] runs[j]).start || runs[j].start
                + runs[j].values.len() * 4096 <= page) ==> !contents(runs).contains_key(page),
{
    if 0 <= i < runs.len() && 0 <= k < runs[i].values.len() {
        let run = runs[i];
        let at = (run.start + k * 4096) as u64;
        assert(run.wf());
        assert(k * 4096 + 4096 <= run.values.len() * 4096) by (nonlinear_arith)
            requires
                k + 1 <= run.values.len(),
        ;
        assert(run.covers(at));
        assert(run.offset(at) == k);
        lemma_covered(runs, i, at);
    }
}

/// Setting the values of consecutive pages gives each page its value and keeps all others.
pub proof fn law_consecutive_values<T>(map: Map<u64, T>, page: u64, values: Seq<T>, other: u64)
    requires
        page % 4096 == 0,
        page + values.len() * 4096 <= u64::MAX,
    ensures
        forall|k: int|
            #![trigger values[k]]
            0 <= k < values.len() ==> with_values(map, page, values).contains_key(
                (page + k * 4096) as u64,
            ) && with_values(map, page, values)[(page + k * 4096) as u64] == values[k],
        other < page || page + values.len() * 4096 <= other || other % 4096 != 0 ==> with_values(
            map,
            page,
            values,
        ).contains_key(other) == map.contains_key(other) && (map.contains_key(other) ==> with_values(
            map,
            page,
            values,
        )[other] == map[other]),
{
    assert forall|k: int| #![trigger values[k]] 0 <= k < values.len() implies with_values(
        map,
        page,
        values,
    ).contains_key((page + k * 4096) as u64) && with_values(map, page, values)[(page + k
        * 4096) as u64] == values[k] by {
        assert(k * 4096 + 4096 <= values.len() * 4096) by (nonlinear_arith)
            requires
                k + 1 <= values.len(),
        ;
    }
}

/// A cursor for a page starts at the last run that doesn't start behind the page, or at the first run if
/// all of them do.
pub proof fn law_start_of_cursor<T>(runs: Seq<Run<T>>, page: u64, idx: int)
    requires
        each_wf(runs),
        sorted(runs),
        0 <= idx < runs.len(),
    ensures
        runs[idx].start <= page && (idx + 1 == runs.len() || page < runs[idx + 1].start)
            ==> cursor_start(runs, page) == idx,
        page < runs[0].start ==> cursor_start(runs, page) == 0,
        cursor_start(Seq::<Run<T>>::empty(), page) == 0,
{
    if runs[idx].start <= page && (idx + 1 == runs.len() || page < runs[idx + 1].start) {
        assert forall|j: int| idx < j < runs.len() implies (#[trigger] runs[j]).start > page by {
            if j > idx + 1 {
                assert(runs[idx + 1].end() <= runs[j].start);
                assert(runs[idx + 1].wf());
            }
        }
        assert(is_cursor_start(runs, page, idx));
        lemma_cursor_start(runs, page, idx);
    }
    if page < runs[0].start {
        assert forall|j: int| 0 < j < runs.len() implies (#[trigger] runs[j]).start > page by {
            assert(runs[0].end() <= runs[j].start);
            assert(runs[0].wf());
        }
        assert(is_cursor_start(runs, page, 0));
        lemma_cursor_start(runs, page, 0);
    }
    let none = Seq::<Run<T>>::empty();
    assert(is_cursor_start(none, page, 0));
    lemma_cursor_start(none, page, 0);
}

/// A page right behind a run extends the run. If it fills the gap to the next run, the runs become one.
pub proof fn law_neighbours_are_joined<T>(runs: Seq<Run<T>>, idx: int, page: u64, value: T)
    requires
        each_wf(runs),
        sorted(runs),
        0 <= idx < runs.len(),
        runs[idx].start + runs[idx].values.len() * 4096 == page,
        idx + 1 == runs.len() || page < runs[idx + 1].start,
    ensures
        ({
            let after = insert_at(runs, cursor_start(runs, page), page, value).0;
            let run = runs[idx];
            if idx + 1 < runs.len() && runs[idx + 1].start == page + 4096 {
                &&& after.len() == runs.len() - 1
                &&& after[idx].start == run.start
                &&& after[idx].values == run.values.push(value) + runs[idx + 1].values
            } else {
                &&& after.len() == runs.len()
                &&& after[idx].start == run.start
                &&& after[idx].values == run.values.push(value)
            }
        }),
{
    assert(runs[idx].wf());
    law_start_of_cursor(runs, page, idx);
}

/// A page right in front of the first run extends that run. A page further in front becomes a run of its
/// own behind the first one.
pub proof fn law_insertion_in_front<T>(runs: Seq<Run<T>>, page: u64, value: T)
    requires
        each_wf(runs),
        sorted(runs),
        runs.len() > 0,
        page < runs[0].start,
    ensures
        ({
            let after = insert_at(runs, cursor_start(runs, page), page, value).0;
            if page + 4096 == runs[0].start {
                &&& after.len() == runs.len()
                &&& after[0].start == page
                &&& after[0].values == seq![value] + runs[0].values
            } else {
                &&& after.len() == runs.len() + 1
                &&& after[0] == runs[0]
                &&& after[1].start == page
                &&& after[1].values == seq![value]
            }
        }),
{
    assert(runs[0].wf());
    law_start_of_cursor(runs, page, 0);
}

/// A cursor for a page behind all others stands where the page belongs, and nothing is in its way.
proof fn lemma_behind_everything<T>(runs: Seq<Run<T>>, page: u64, count: int)
    requires
        each_wf(runs),
        sorted(runs),
        addr::is_page(page),
        forall|i: int| 0 <= i < runs.len() ==> (#[trigger] runs[i]).end() <= page,
    ensures
        in_place(runs, cursor_start(runs, page), page),
        clear_ahead(runs, cursor_start(runs, page), page, count),
{
    if runs.len() > 0 {
        let idx = runs.len() - 1;
        assert(runs[idx].end() <= page);
        assert(runs[idx].wf());
        law_start_of_cursor(runs, page, idx);
    } else {
        assert(is_cursor_start(runs, page, 0));
        lemma_cursor_start(runs, page, 0);
    }
}

/// Values that are inserted behind all others, away from the hole between the halves, are there afterwards.
/// All other pages keep theirs.
#[verifier::rlimit(20)]
pub proof fn law_insertion_behind_everything<T>(
    runs: Seq<Run<T>>,
    page: u64,
    values: Seq<T>,
    k: int,
    other: u64,
)
    requires
        each_wf(runs),
        sorted(runs),
        addr::is_page(page),
        page + values.len() * 4096 < 0x8000_0000_0000 || (page > 0xffff_8000_0000_0000 && page
            + values.len() * 4096 <= 0xffff_ffff_ffff_f000),
        forall|i: int|
            0 <= i < runs.len() ==> (#[trigger] runs[i]).start + runs[i].values.len() * 4096
                <= page,
        0 <= k < values.len(),
    ensures
        ({
            let after = insert_all_at(runs, cursor_start(runs, page), page, values);
            let at = (page + k * 4096) as u64;
            &&& each_wf(after)
            &&& sorted(after)
            &&& contents(after).contains_key(at)
            &&& contents(after)[at] == values[k]
            &&& contents(runs).contains_key(other) ==> contents(after).contains_key(other)
                && contents(after)[other] == contents(runs)[other]
        }),
{
    let idx = cursor_start(runs, page);
    let after = insert_all_at(runs, idx, page, values);
    assert(each_wf(after) && sorted(after) && contents(after) == with_values(
        contents(runs),
        page,
        values,
    )) by {
        lemma_behind_everything(runs, page, values.len() as int);
        lemma_far_from_hole(runs, idx, page, values);
        lemma_insert_all_at(runs, idx, page, values);
    }
    assert(contents(runs).contains_key(other) ==> other < page) by {
        if contents(runs).contains_key(other) {
            assert(runs[run_of(runs, other)].covers(other));
        }
    }
    law_consecutive_values(contents(runs), page, values, other);
    assert(values[k] == values[k]);
}

/// Nothing is in the way of inserting a page that isn't next to the hole between the halves.
pub proof fn law_away_from_hole<T>(runs: Seq<Run<T>>, idx: int, page: u64, count: int)
    requires
        0 <= count,
        page + count * 4096 <= 0x8000_0000_0000 || (page >= 0xffff_8000_0000_0000 && page + count
            * 4096 <= 0xffff_ffff_ffff_f000),
    ensures
        page != 0xffff_8000_0000_0000 && page != 0x7fff_ffff_f000 ==> keeps_halves_apart(
            runs,
            idx,
            page,
        ),
        in_one_half(page, count),
        page != 0xffff_8000_0000_0000 && page + count * 4096 != 0x8000_0000_0000 ==> !touches_hole(
            page,
            count,
        ),
{
}

/// Pages are removed up to the number of pages that is asked for. The hole between the halves doesn't
/// count.
pub proof fn law_end_of_removal(page: u64, len: int)
    requires
        0 <= len,
        page < 0x8000_0000_0000 || page >= 0xffff_8000_0000_0000,
    ensures
        page + len * 4096 < 0x8000_0000_0000 ==> removal_end(page, len) == page + len * 4096,
        page >= 0xffff_8000_0000_0000 && page + len * 4096 <= u64::MAX ==> removal_end(page, len)
            == page + len * 4096,
        page >= 0xffff_8000_0000_0000 && page + len * 4096 > u64::MAX ==> removal_end(page, len)
            == 0xffff_ffff_ffff_f000,
        page < 0x8000_0000_0000 <= page + len * 4096 < 0x1_0000_0000_0000 ==> removal_end(page, len)
            == page + len * 4096 + 0xffff_0000_0000_0000,
{
}

/// A page outside of the removed ones keeps its value. A page among them loses it unless it belongs to a
/// run that starts behind the first removed page and reaches past the last one.
pub proof fn law_removal_of_pages<T>(
    runs: Seq<Run<T>>,
    after: Map<u64, T>,
    start: u64,
    end: u64,
    i: int,
    page: u64,
)
    requires
        each_wf(runs),
        sorted(runs),
        is_removal(runs, after, start, end),
        0 <= i < runs.len(),
        runs[i].start <= page < runs[i].start + runs[i].values.len() * 4096,
        page % 4096 == 0,
    ensures
        ({
            let kept = page < start || page >= end || (start < runs[i].start && end < runs[i].start
                + runs[i].values.len() * 4096);
            &&& after.contains_key(page) <==> kept
            &&& kept ==> after[page] == runs[i].values[(page - runs[i].start) / 4096]
        }),
{
    assert(runs[i].covers(page));
    lemma_covered(runs, i, page);
    lemma_unique(runs, i, run_of(runs, page), page);
}

/// A page without a value has none after a removal either.
pub proof fn law_removal_adds_nothing<T>(
    runs: Seq<Run<T>>,
    after: Map<u64, T>,
    start: u64,
    end: u64,
    page: u64,
)
    requires
        is_removal(runs, after, start, end),
        after.contains_key(page),
    ensures
        contents(runs).contains_key(page),
        after[page] == contents(runs)[page],
{
}

/// How many pages have a value.
pub open spec fn count_of<T>(runs: Seq<Run<T>>) -> int
    decreases runs.len(),
{
    if runs.len() == 0 {
        0
    } else {
        runs[0].values.len() + count_of(runs.drop_first())
    }
}

/// The entries of a map are its pages in ascending order: each entry is a page with a value, a later entry
/// is a later page, and there are as many entries as pages with a value.
pub proof fn law_entries_are_pages<T>(runs: Seq<Run<T>>, index: int)
    requires
        each_wf(runs),
        sorted(runs),
        0 <= index,
    ensures
        entry_page(runs, index) is Some <==> index < count_of(runs),
        entry_page(runs, index) matches Some(page) ==> contents(runs).contains_key(page)
            && runs[0].start <= page,
        entry_page(runs, index + 1) matches Some(next) ==> entry_page(runs, index) is Some
            && entry_page(runs, index)->0 < next,
    decreases runs.len(),
{
    if runs.len() > 0 {
        let run = runs[0];
        let rest = runs.drop_first();
        assert(run.wf());
        let len = run.values.len() as int;
        assert(each_wf(rest) && sorted(rest)) by {
            assert forall|i: int| 0 <= i < rest.len() implies (#[trigger] rest[i]).wf() by {
                assert(runs[i + 1].wf());
            }
            assert forall|i: int, j: int| 0 <= i < j < rest.len() implies (#[trigger] rest[i]).end()
                <= (#[trigger] rest[j]).start by {
                assert(runs[i + 1].end() <= runs[j + 1].start);
            }
        }
        lemma_count_is_positive(rest);
        if index < len {
            let page = (run.start + index * 4096) as u64;
            assert(index * 4096 + 4096 <= len * 4096) by (nonlinear_arith)
                requires
                    index + 1 <= len,
            ;
            assert(run.covers(page));
            lemma_covered(runs, 0, page);
            if index + 1 == len {
                law_entries_are_pages(rest, 0);
                if rest.len() > 0 {
                    assert(runs[0].end() <= runs[1].start);
                    assert(rest[0] == runs[1]);
                }
            }
        } else {
            law_entries_are_pages(rest, index - len);
            if entry_page(rest, index - len) is Some {
                let page = entry_page(rest, index - len)->0;
                let i = run_of(rest, page);
                assert(rest[i].covers(page));
                assert(runs[i + 1].covers(page));
                lemma_covered(runs, i + 1, page);
                assert(runs[0].end() <= runs[1].start);
                assert(rest[0] == runs[1]);
            }
        }
    }
}

proof fn lemma_count_is_positive<T>(runs: Seq<Run<T>>)
    ensures
        count_of(runs) >= 0,
    decreases runs.len(),
{
    if runs.len() > 0 {
        lemma_count_is_positive(runs.drop_first());
    }
}

} // verus!
