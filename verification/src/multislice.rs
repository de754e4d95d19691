//! A fragment buffer: one logical literal stored as an ordered list of
//! string fragments.
//!
//! During parsing, escape sequences interrupt a literal run, so one logical
//! literal may arrive in several pieces. A [`MultiSlice`] collects those
//! pieces and behaves like their concatenation: its content is the fragments
//! joined in order, and every operation (length, prefix test, occurrence
//! search, equality) is specified purely in terms of that content, never in
//! terms of how the content happens to be split.

use vstd::prelude::*;
use vstd::seq_lib::lemma_flatten_concat;
use vstd::std_specs::cmp::PartialEqSpec;
use vstd::string::StrSliceExecFns;

verus! {

/// `content` occurs in `s` at position `p`: the characters of `s` from `p`
/// on start with `content`. An empty content occurs at every position from
/// `0` through `s.len()` inclusive.
pub open spec fn is_occurrence(content: Seq<char>, s: Seq<char>, p: int) -> bool {
    0 <= p <= s.len() && content.is_prefix_of(s.skip(p))
}

/// An ordered collection of string fragments standing for their
/// concatenation. The combined length is cached so that it can be read in
/// constant time.
///
/// All indices and lengths count characters (Unicode scalar values), not
/// bytes; the same unit is used uniformly by the parser and the matcher.
#[derive(Debug)]
pub struct MultiSlice {
    slices: Vec<String>,
    total_length: usize,
}

impl MultiSlice {
    /// The fragments, each as its sequence of characters.
    pub closed spec fn fragments(&self) -> Seq<Seq<char>> {
        Seq::new(self.slices@.len(), |i: int| self.slices@[i]@)
    }

    /// The logical content: all fragments concatenated in order.
    pub open spec fn content(&self) -> Seq<char> {
        self.fragments().flatten()
    }

    /// The cached combined length agrees with the content.
    pub closed spec fn wf(&self) -> bool {
        self.total_length == self.content().len()
    }

    /// Creates an empty buffer, whose content is the empty string.
    pub fn new() -> (r: Self)
        ensures
            r.wf(),
            r.fragments() == Seq::<Seq<char>>::empty(),
            r.content() == Seq::<char>::empty(),
    {
        let r = MultiSlice { slices: Vec::new(), total_length: 0 };
        proof {
            assert(r.fragments() =~= Seq::<Seq<char>>::empty());
            assert(r.content() =~= Seq::<char>::empty());
        }
        r
    }

    /// Creates a buffer holding `slice` as its single fragment.
    pub fn from(slice: &str) -> (r: Self)
        ensures
            r.wf(),
            r.fragments() == seq![slice@],
            r.content() == slice@,
    {
        let length = slice.unicode_len();
        let mut slices: Vec<String> = Vec::new();
        slices.push(slice.to_owned());
        let r = MultiSlice { slices, total_length: length };
        proof {
            assert(r.fragments() =~= seq![slice@]);
            r.fragments().lemma_flatten_one_element();
        }
        r
    }

    /// Appends one more fragment; the content grows by `slice` at the end.
    pub fn push(&mut self, slice: &str)
        requires
            old(self).wf(),
            old(self).content().len() + slice@.len() <= usize::MAX,
        ensures
            final(self).wf(),
            final(self).fragments() == old(self).fragments().push(slice@),
            final(self).content() == old(self).content() + slice@,
    {
        let length = slice.unicode_len();
        self.slices.push(slice.to_owned());
        self.total_length = self.total_length + length;
        proof {
            assert(self.fragments() =~= old(self).fragments().push(slice@));
            old(self).fragments().lemma_flatten_push(slice@);
        }
    }

    /// Hands out the fragment at `index`, or `None` past the end.
    pub fn get(&self, index: usize) -> (r: Option<&str>)
        ensures
            match r {
                Some(s) => index < self.fragments().len() && s@ == self.fragments()[index as int],
                None => index >= self.fragments().len(),
            },
    {
        if index < self.slices.len() {
            Some(self.slices[index].as_str())
        } else {
            None
        }
    }

    /// Finds the first non-empty fragment at or after `index`, together
    /// with its position, or `None` when every remaining fragment is empty.
    #[verifier::loop_isolation(false)]
    fn get_next_non_empty_slice(&self, index: usize) -> (r: Option<(usize, &str)>)
        ensures
            self.fragments().len() <= usize::MAX,
            match r {
                Some((k, s)) => {
                    &&& index <= k < self.fragments().len()
                    &&& s@ == self.fragments()[k as int]
                    &&& s@.len() > 0
                    &&& forall|j: int|
                        index <= j < k ==> (#[trigger] self.fragments()[j]).len() == 0
                },
                None => forall|j: int|
                    index <= j < self.fragments().len() ==> (#[trigger] self.fragments()[j]).len()
                        == 0,
            },
    {
        let n = self.slices.len();
        let mut k = index;
        while k < n
            invariant
                index <= k,
                forall|j: int| index <= j < k ==> (#[trigger] self.fragments()[j]).len() == 0,
            decreases n - k,
        {
            let slice = self.slices[k].as_str();
            if slice.unicode_len() > 0 {
                return Some((k, slice));
            }
            k = k + 1;
        }
        None
    }

    /// Returns the combined length of all fragments, i.e. the length of the
    /// content, in constant time.
    pub fn get_combined_length(&self) -> (r: usize)
        requires
            self.wf(),
        ensures
            r == self.content().len(),
    {
        self.total_length
    }

    /// Tests whether the content is a prefix of `string`: each fragment in
    /// turn must equal the next window of `string`. Trailing characters of
    /// `string` beyond the content are permitted.
    #[verifier::loop_isolation(false)]
    pub fn matches_string_start(&self, string: &str) -> (r: bool)
        ensures
            r == self.content().is_prefix_of(string@),
    {
        let string_len = string.unicode_len();
        let n = self.slices.len();
        let mut i: usize = 0;
        let mut k: usize = 0;
        while k < n
            invariant
                k <= n,
                i <= string_len,
                i == self.fragments().take(k as int).flatten().len(),
                self.fragments().take(k as int).flatten() == string@.subrange(0, i as int),
            decreases n - k,
        {
            let slice = &self.slices[k];
            let m = slice.as_str().unicode_len();
            proof {
                lemma_flatten_split(self.fragments(), k as int);
                lemma_flatten_head(self.fragments().skip(k as int));
                assert(self.fragments().skip(k as int).drop_first() =~= self.fragments().skip(
                    k as int + 1,
                ));
                assert(self.content().len() >= i + m);
            }
            if m > string_len - i {
                proof {
                    assert(self.content().len() > string@.len());
                }
                return false;
            }
            let mut j: usize = 0;
            while j < m
                invariant
                    j <= m,
                    i + m <= string_len,
                    forall|t: int| 0 <= t < j ==> slice@[t] == string@[i + t],
                decreases m - j,
            {
                if slice.as_str().get_char(j) != string.get_char(i + j) {
                    proof {
                        lemma_flatten_take_succ(self.fragments(), k as int);
                        assert(self.content()[i + j] == slice@[j as int]);
                        assert(!self.content().is_prefix_of(string@)) by {
                            if self.content().is_prefix_of(string@) {
                                assert(self.content()[i + j] == string@.subrange(
                                    0,
                                    self.content().len() as int,
                                )[i + j]);
                            }
                        }
                    }
                    return false;
                }
                j = j + 1;
            }
            proof {
                lemma_flatten_take_succ(self.fragments(), k as int);
                assert(self.fragments().take(k as int + 1).flatten() =~= string@.subrange(
                    0,
                    i as int + m as int,
                ));
            }
            i = i + m;
            k = k + 1;
        }
        proof {
            assert(self.fragments().take(n as int) =~= self.fragments());
            assert(self.content().is_prefix_of(string@));
        }
        true
    }
}

impl MultiSlice {
    /// Starts a lazy search for every position in `string` at which the
    /// content occurs; [`AllMultiSliceOccurencesIterator::next`] hands the
    /// positions out one at a time, in ascending order.
    pub fn find_all_occurences_in<'g, 's>(&'g self, string: &'s str) -> (r:
        AllMultiSliceOccurencesIterator<'g, 's>)
        ensures
            r.wf(),
            r.pattern_content() == self.content(),
            r.target() == string@,
            !r.done(),
            r.cursor() == 0,
    {
        let first_non_empty_slice = match self.get_next_non_empty_slice(0) {
            Some((k, slice)) => {
                proof {
                    lemma_first_non_empty_starts_content(self.fragments(), k as int);
                }
                Some(slice)
            },
            None => {
                proof {
                    lemma_flatten_of_empties(self.fragments());
                }
                None
            },
        };
        let r = AllMultiSliceOccurencesIterator {
            slices: self,
            string,
            first_non_empty_slice,
            next_search_position: 0,
            exhausted: false,
        };
        r
    }
}

/// A lazy, finite stream of the positions at which one buffer's content
/// occurs in one target string, produced in ascending order. A fresh search
/// starts at position 0; each yielded position advances the cursor one past
/// it, so every occurrence is yielded exactly once.
pub struct AllMultiSliceOccurencesIterator<'g, 's> {
    slices: &'g MultiSlice,
    string: &'s str,
    first_non_empty_slice: Option<&'g str>,
    next_search_position: usize,
    exhausted: bool,
}

impl<'g, 's> AllMultiSliceOccurencesIterator<'g, 's> {
    /// The content being searched for.
    pub closed spec fn pattern_content(&self) -> Seq<char> {
        self.slices.content()
    }

    /// The string being searched.
    pub closed spec fn target(&self) -> Seq<char> {
        self.string@
    }

    /// No further positions will be yielded.
    pub closed spec fn done(&self) -> bool {
        self.exhausted
    }

    /// The position at which the search resumes: every occurrence before it
    /// has already been yielded, every occurrence at or after it has not.
    pub closed spec fn cursor(&self) -> int {
        self.next_search_position as int
    }

    /// While the search is live, the cursor stays inside the target, and
    /// the cached anchor is the first non-empty fragment of the buffer: a
    /// non-empty prefix of the content, or `None` when the content is empty.
    pub closed spec fn wf(&self) -> bool {
        &&& !self.exhausted ==> self.next_search_position <= self.string@.len()
        &&& match self.first_non_empty_slice {
            Some(anchor) => anchor@.len() > 0 && anchor@.is_prefix_of(self.slices.content()),
            None => self.slices.content().len() == 0,
        }
    }

    /// Yields the next position at which the content occurs in the target,
    /// or `None` once no occurrence remains at or after the cursor.
    #[verifier::loop_isolation(false)]
    pub fn next(&mut self) -> (r: Option<usize>)
        requires
            old(self).wf(),
        ensures
            final(self).wf(),
            final(self).pattern_content() == old(self).pattern_content(),
            final(self).target() == old(self).target(),
            match r {
                Some(p) => {
                    &&& !old(self).done()
                    &&& is_occurrence(old(self).pattern_content(), old(self).target(), p as int)
                    &&& old(self).cursor() <= p
                    &&& forall|q: int|
                        old(self).cursor() <= q < p ==> !is_occurrence(
                            old(self).pattern_content(),
                            old(self).target(),
                            q,
                        )
                    &&& final(self).done() ==> forall|q: int|
                        q > p ==> !is_occurrence(
                            old(self).pattern_content(),
                            old(self).target(),
                            q,
                        )
                    &&& !final(self).done() ==> final(self).cursor() == p + 1
                },
                None => {
                    &&& final(self).done()
                    &&& !old(self).done() ==> forall|q: int|
                        q >= old(self).cursor() ==> !is_occurrence(
                            old(self).pattern_content(),
                            old(self).target(),
                            q,
                        )
                },
            },
    {
        if self.exhausted {
            return None;
        }
        let string_len = self.string.unicode_len();
        match self.first_non_empty_slice {
            None => {
                // The content is empty, so it occurs at every position from
                // the cursor through the end of the target.
                let current_search_position = self.next_search_position;
                proof {
                    assert(self.slices.content() =~= self.string@.skip(
                        current_search_position as int,
                    ).subrange(0, 0));
                }
                if current_search_position == string_len {
                    self.exhausted = true;
                } else {
                    self.next_search_position = current_search_position + 1;
                }
                Some(current_search_position)
            },
            Some(anchor) => {
                let ghost content = self.slices.content();
                let mut p = self.next_search_position;
                loop
                    invariant
                        *self == *old(self),
                        old(self).cursor() <= p <= string_len,
                        forall|q: int|
                            old(self).cursor() <= q < p ==> !is_occurrence(
                                content,
                                self.string@,
                                q,
                            ),
                    decreases string_len - p,
                {
                    if p >= string_len {
                        self.exhausted = true;
                        proof {
                            assert(!content.is_prefix_of(self.string@.skip(string_len as int)));
                        }
                        return None;
                    }
                    // Look for the next hit of the anchor fragment; every
                    // occurrence of the whole content must start with it.
                    match find_string_from(self.string, anchor, p) {
                        None => {
                            self.exhausted = true;
                            proof {
                                assert forall|q: int| q >= p implies !is_occurrence(
                                    content,
                                    self.string@,
                                    q,
                                ) by {
                                    if q <= self.string@.len() && content.is_prefix_of(
                                        self.string@.skip(q),
                                    ) {
                                        lemma_prefix_transitive(
                                            anchor@,
                                            content,
                                            self.string@.skip(q),
                                        );
                                    }
                                }
                            }
                            return None;
                        },
                        Some(absolute_position) => {
                            proof {
                                assert forall|q: int| p <= q < absolute_position implies
                                    !is_occurrence(content, self.string@, q) by {
                                    if content.is_prefix_of(self.string@.skip(q)) {
                                        lemma_prefix_transitive(
                                            anchor@,
                                            content,
                                            self.string@.skip(q),
                                        );
                                    }
                                }
                            }
                            let found = self.slices.matches_string_start(
                                self.string.substring_char(absolute_position, string_len),
                            );
                            proof {
                                assert(self.string@.subrange(
                                    absolute_position as int,
                                    string_len as int,
                                ) =~= self.string@.skip(absolute_position as int));
                            }
                            if found {
                                self.next_search_position = absolute_position + 1;
                                return Some(absolute_position);
                            }
                            p = absolute_position + 1;
                        },
                    }
                }
            },
        }
    }
}

impl PartialEq for MultiSlice {
    /// Two buffers are equal exactly when their contents are equal,
    /// regardless of how either content is split into fragments: the
    /// comparison walks both buffers' non-empty fragments in lock-step,
    /// consuming the minimum overlapping window at each step and failing
    /// fast on any mismatched window.
    #[verifier::loop_isolation(false)]
    #[verifier::rlimit(60)]
    fn eq(&self, other: &Self) -> (r: bool) {
        let ghost left_frags = self.fragments();
        let ghost right_frags = other.fragments();
        let mut left_slice_no: usize = 0;
        let mut right_slice_no: usize = 0;
        let mut left_slice_index: usize = 0;
        let mut right_slice_index: usize = 0;
        loop
            invariant
                left_slice_no <= left_frags.len(),
                right_slice_no <= right_frags.len(),
                left_slice_index > 0 ==> left_slice_no < left_frags.len() && left_slice_index
                    < left_frags[left_slice_no as int].len(),
                right_slice_index > 0 ==> right_slice_no < right_frags.len() && right_slice_index
                    < right_frags[right_slice_no as int].len(),
                consumed_characters(left_frags, left_slice_no as int, left_slice_index as int)
                    == consumed_characters(
                    right_frags,
                    right_slice_no as int,
                    right_slice_index as int,
                ),
                consumed_characters(
                    left_frags,
                    left_slice_no as int,
                    left_slice_index as int,
                ).len() <= self.content().len(),
            decreases self.content().len() - consumed_characters(
                left_frags,
                left_slice_no as int,
                left_slice_index as int,
            ).len(),
        {
            let ghost consumed = consumed_characters(
                left_frags,
                left_slice_no as int,
                left_slice_index as int,
            );
            let left_slice = self.get_next_non_empty_slice(left_slice_no);
            let right_slice = other.get_next_non_empty_slice(right_slice_no);
            match (left_slice, right_slice) {
                (None, None) => {
                    proof {
                        lemma_flatten_split(left_frags, left_slice_no as int);
                        lemma_flatten_of_empties(left_frags.skip(left_slice_no as int));
                        lemma_flatten_split(right_frags, right_slice_no as int);
                        lemma_flatten_of_empties(right_frags.skip(right_slice_no as int));
                        assert(self.content() =~= consumed);
                        assert(other.content() =~= consumed);
                    }
                    return true;
                },
                (None, Some((found_no, _))) => {
                    proof {
                        lemma_flatten_split(left_frags, left_slice_no as int);
                        lemma_flatten_of_empties(left_frags.skip(left_slice_no as int));
                        assert(self.content() =~= consumed);
                        if right_slice_index > 0 {
                            lemma_consumed_decomposition(
                                right_frags,
                                right_slice_no as int,
                                right_slice_index as int,
                            );
                        } else {
                            lemma_flatten_take_skip_empties(
                                right_frags,
                                right_slice_no as int,
                                found_no as int,
                            );
                            lemma_consumed_decomposition(right_frags, found_no as int, 0);
                        }
                        assert(other.content().len() > self.content().len());
                    }
                    return false;
                },
                (Some((found_no, _)), None) => {
                    proof {
                        lemma_flatten_split(right_frags, right_slice_no as int);
                        lemma_flatten_of_empties(right_frags.skip(right_slice_no as int));
                        assert(other.content() =~= consumed);
                        if left_slice_index > 0 {
                            lemma_consumed_decomposition(
                                left_frags,
                                left_slice_no as int,
                                left_slice_index as int,
                            );
                        } else {
                            lemma_flatten_take_skip_empties(
                                left_frags,
                                left_slice_no as int,
                                found_no as int,
                            );
                            lemma_consumed_decomposition(left_frags, found_no as int, 0);
                        }
                        assert(self.content().len() > other.content().len());
                    }
                    return false;
                },
                (Some((left_no, left_content)), Some((right_no, right_content))) => {
                    proof {
                        if left_slice_index == 0 {
                            lemma_flatten_take_skip_empties(
                                left_frags,
                                left_slice_no as int,
                                left_no as int,
                            );
                        }
                        if right_slice_index == 0 {
                            lemma_flatten_take_skip_empties(
                                right_frags,
                                right_slice_no as int,
                                right_no as int,
                            );
                        }
                    }
                    left_slice_no = left_no;
                    right_slice_no = right_no;
                    proof {
                        assert(consumed_characters(
                            left_frags,
                            left_slice_no as int,
                            left_slice_index as int,
                        ) =~= consumed);
                        assert(consumed_characters(
                            right_frags,
                            right_slice_no as int,
                            right_slice_index as int,
                        ) =~= consumed);
                        lemma_consumed_decomposition(
                            left_frags,
                            left_slice_no as int,
                            left_slice_index as int,
                        );
                        lemma_consumed_decomposition(
                            right_frags,
                            right_slice_no as int,
                            right_slice_index as int,
                        );
                    }
                    let left_len = left_content.unicode_len();
                    let right_len = right_content.unicode_len();
                    let chars_remaining_left = left_len - left_slice_index;
                    let chars_remaining_right = right_len - right_slice_index;
                    let chars_to_be_compared = if chars_remaining_left < chars_remaining_right {
                        chars_remaining_left
                    } else {
                        chars_remaining_right
                    };
                    let mut t: usize = 0;
                    while t < chars_to_be_compared
                        invariant
                            t <= chars_to_be_compared,
                            forall|u: int|
                                0 <= u < t ==> #[trigger] left_content@[left_slice_index + u]
                                    == right_content@[right_slice_index + u],
                        decreases chars_to_be_compared - t,
                    {
                        if left_content.get_char(left_slice_index + t) != right_content.get_char(
                            right_slice_index + t,
                        ) {
                            proof {
                                let position = consumed.len() as int + t;
                                assert(self.content()[position] == left_content@[left_slice_index
                                    + t]);
                                assert(other.content()[position] == right_content@[
                                    right_slice_index + t]);
                            }
                            return false;
                        }
                        t = t + 1;
                    }
                    proof {
                        assert(left_frags[left_slice_no as int] == left_content@);
                        assert(right_frags[right_slice_no as int] == right_content@);
                        assert(left_slice_index + chars_to_be_compared <= left_content@.len());
                        assert(right_slice_index + chars_to_be_compared <= right_content@.len());
                        assert forall|u: int|
                            0 <= u < chars_to_be_compared implies #[trigger] left_content@.subrange(
                                left_slice_index as int,
                                left_slice_index + chars_to_be_compared,
                            )[u] == right_content@.subrange(
                                right_slice_index as int,
                                right_slice_index + chars_to_be_compared,
                            )[u] by {
                            assert(left_content@[left_slice_index + u] == right_content@[
                                right_slice_index + u]);
                        }
                        assert(left_frags[left_slice_no as int].subrange(
                            left_slice_index as int,
                            left_slice_index + chars_to_be_compared,
                        ) =~= right_frags[right_slice_no as int].subrange(
                            right_slice_index as int,
                            right_slice_index + chars_to_be_compared,
                        ));
                        lemma_flatten_take_succ(left_frags, left_slice_no as int);
                        lemma_flatten_take_succ(right_frags, right_slice_no as int);
                    }
                    let ghost window = left_frags[left_slice_no as int].subrange(
                        left_slice_index as int,
                        left_slice_index + chars_to_be_compared,
                    );
                    proof {
                        lemma_consumed_advance(
                            left_frags,
                            left_slice_no as int,
                            left_slice_index as int,
                            chars_to_be_compared as int,
                        );
                        lemma_consumed_advance(
                            right_frags,
                            right_slice_no as int,
                            right_slice_index as int,
                            chars_to_be_compared as int,
                        );
                    }
                    if chars_to_be_compared == chars_remaining_left {
                        left_slice_no = left_slice_no + 1;
                        left_slice_index = 0;
                    } else {
                        left_slice_index = left_slice_index + chars_to_be_compared;
                    }
                    if chars_to_be_compared == chars_remaining_right {
                        right_slice_no = right_slice_no + 1;
                        right_slice_index = 0;
                    } else {
                        right_slice_index = right_slice_index + chars_to_be_compared;
                    }
                    proof {
                        assert(consumed_characters(
                            left_frags,
                            left_slice_no as int,
                            left_slice_index as int,
                        ) == consumed + window);
                        assert(consumed_characters(
                            right_frags,
                            right_slice_no as int,
                            right_slice_index as int,
                        ) == consumed + window);
                    }
                },
            }
        }
    }
}

impl vstd::std_specs::cmp::PartialEqSpecImpl for MultiSlice {
    open spec fn obeys_eq_spec() -> bool {
        true
    }

    open spec fn eq_spec(&self, other: &Self) -> bool {
        self.content() == other.content()
    }
}

/// Buffer equality is segmentation-independent: whether two buffers compare
/// equal depends only on their concatenated contents, never on how many
/// fragments each holds or where the fragment boundaries fall.
pub proof fn lemma_eq_is_segmentation_independent(a: &MultiSlice, b: &MultiSlice)
    ensures
        a.eq_spec(b) <==> a.content() == b.content(),
{
}

/// Splitting a sequence of fragments anywhere splits its concatenation.
proof fn lemma_flatten_split(frags: Seq<Seq<char>>, k: int)
    requires
        0 <= k <= frags.len(),
    ensures
        frags.flatten() == frags.take(k).flatten() + frags.skip(k).flatten(),
{
    lemma_flatten_concat(frags.take(k), frags.skip(k));
    assert(frags.take(k) + frags.skip(k) =~= frags);
}

/// Extending a prefix of fragments by one appends that fragment to the
/// concatenation.
proof fn lemma_flatten_take_succ(frags: Seq<Seq<char>>, k: int)
    requires
        0 <= k < frags.len(),
    ensures
        frags.take(k + 1).flatten() == frags.take(k).flatten() + frags[k],
{
    lemma_flatten_concat(frags.take(k), seq![frags[k]]);
    assert(frags.take(k) + seq![frags[k]] =~= frags.take(k + 1));
    seq![frags[k]].lemma_flatten_one_element();
}

/// A non-empty sequence of fragments concatenates to its first fragment
/// followed by the concatenation of the rest.
proof fn lemma_flatten_head(frags: Seq<Seq<char>>)
    requires
        frags.len() > 0,
    ensures
        frags.flatten() == frags.first() + frags.drop_first().flatten(),
{
}

/// The characters consumed from a buffer's fragments by the lock-step
/// comparison: all of the fragments before `slice_no`, and the first
/// `slice_index` characters of the fragment at `slice_no`.
spec fn consumed_characters(frags: Seq<Seq<char>>, slice_no: int, slice_index: int) -> Seq<char> {
    if slice_no < frags.len() {
        frags.take(slice_no).flatten() + frags[slice_no].take(slice_index)
    } else {
        frags.take(slice_no).flatten()
    }
}

/// The whole content is what has been consumed up to a point inside one
/// fragment, the rest of that fragment, and the remaining fragments.
proof fn lemma_consumed_decomposition(frags: Seq<Seq<char>>, slice_no: int, slice_index: int)
    requires
        0 <= slice_no < frags.len(),
        0 <= slice_index <= frags[slice_no].len(),
    ensures
        frags.flatten() == consumed_characters(frags, slice_no, slice_index)
            + frags[slice_no].skip(slice_index) + frags.skip(slice_no + 1).flatten(),
{
    lemma_flatten_split(frags, slice_no);
    lemma_flatten_head(frags.skip(slice_no));
    assert(frags.skip(slice_no).drop_first() =~= frags.skip(slice_no + 1));
    assert(frags.skip(slice_no).first() == frags[slice_no]);
    assert(frags.flatten() =~= consumed_characters(frags, slice_no, slice_index)
        + frags[slice_no].skip(slice_index) + frags.skip(slice_no + 1).flatten());
}

/// Consuming a window of characters inside one fragment extends the
/// consumed prefix by exactly that window, whether or not the window
/// finishes the fragment.
proof fn lemma_consumed_advance(frags: Seq<Seq<char>>, no: int, idx: int, count: int)
    requires
        0 <= no < frags.len(),
        0 <= idx,
        0 <= count,
        idx + count <= frags[no].len(),
    ensures
        idx + count == frags[no].len() ==> consumed_characters(frags, no + 1, 0)
            == consumed_characters(frags, no, idx) + frags[no].subrange(idx, idx + count),
        idx + count < frags[no].len() ==> consumed_characters(frags, no, idx + count)
            == consumed_characters(frags, no, idx) + frags[no].subrange(idx, idx + count),
{
    lemma_flatten_take_succ(frags, no);
    if idx + count == frags[no].len() {
        assert(consumed_characters(frags, no + 1, 0) =~= consumed_characters(frags, no, idx)
            + frags[no].subrange(idx, idx + count));
    } else {
        assert(consumed_characters(frags, no, idx + count) =~= consumed_characters(frags, no, idx)
            + frags[no].subrange(idx, idx + count));
    }
}

/// Skipping over empty fragments does not change the concatenated prefix.
proof fn lemma_flatten_take_skip_empties(frags: Seq<Seq<char>>, a: int, b: int)
    requires
        0 <= a <= b <= frags.len(),
        forall|j: int| a <= j < b ==> (#[trigger] frags[j]).len() == 0,
    ensures
        frags.take(b).flatten() == frags.take(a).flatten(),
    decreases b - a,
{
    if b > a {
        lemma_flatten_take_skip_empties(frags, a, b - 1);
        lemma_flatten_take_succ(frags, b - 1);
        assert(frags.take(b).flatten() =~= frags.take(a).flatten());
    }
}

/// A sequence of empty fragments concatenates to the empty sequence.
proof fn lemma_flatten_of_empties(frags: Seq<Seq<char>>)
    requires
        forall|j: int| 0 <= j < frags.len() ==> (#[trigger] frags[j]).len() == 0,
    ensures
        frags.flatten().len() == 0,
    decreases frags.len(),
{
    if frags.len() > 0 {
        assert(forall|j: int|
            0 <= j < frags.drop_first().len() ==> (#[trigger] frags.drop_first()[j]).len() == 0);
        lemma_flatten_of_empties(frags.drop_first());
    }
}

/// A prefix of a prefix is a prefix.
proof fn lemma_prefix_transitive(a: Seq<char>, b: Seq<char>, c: Seq<char>)
    requires
        a.is_prefix_of(b),
        b.is_prefix_of(c),
    ensures
        a.is_prefix_of(c),
{
    assert(a =~= c.subrange(0, a.len() as int));
}

/// The first non-empty fragment starts the content.
proof fn lemma_first_non_empty_starts_content(frags: Seq<Seq<char>>, k: int)
    requires
        0 <= k < frags.len(),
        forall|j: int| 0 <= j < k ==> (#[trigger] frags[j]).len() == 0,
    ensures
        frags[k].is_prefix_of(frags.flatten()),
{
    lemma_flatten_split(frags, k);
    assert(forall|j: int|
        0 <= j < frags.take(k).len() ==> (#[trigger] frags.take(k)[j]).len() == 0);
    lemma_flatten_of_empties(frags.take(k));
    lemma_flatten_head(frags.skip(k));
    assert(frags.skip(k).first() == frags[k]);
    assert(frags.flatten() =~= frags[k] + frags.skip(k).drop_first().flatten());
    assert(frags[k] =~= frags.flatten().subrange(0, frags[k].len() as int));
}

/// Tests whether `needle` starts at character `position` of `haystack`.
#[verifier::loop_isolation(false)]
fn string_matches_at(haystack: &str, needle: &str, position: usize) -> (r: bool)
    requires
        position <= haystack@.len(),
    ensures
        r == needle@.is_prefix_of(haystack@.skip(position as int)),
{
    let haystack_len = haystack.unicode_len();
    let needle_len = needle.unicode_len();
    if needle_len > haystack_len - position {
        return false;
    }
    let mut j: usize = 0;
    while j < needle_len
        invariant
            j <= needle_len,
            forall|t: int| 0 <= t < j ==> needle@[t] == haystack@[position + t],
        decreases needle_len - j,
    {
        if needle.get_char(j) != haystack.get_char(position + j) {
            proof {
                assert(haystack@.skip(position as int)[j as int] == haystack@[position + j]);
            }
            return false;
        }
        j = j + 1;
    }
    proof {
        assert(needle@ =~= haystack@.skip(position as int).subrange(0, needle@.len() as int));
    }
    true
}

/// Finds the first position at or after `from` where `needle` occurs in
/// `haystack`, or `None` when there is none.
#[verifier::loop_isolation(false)]
fn find_string_from(haystack: &str, needle: &str, from: usize) -> (r: Option<usize>)
    requires
        from <= haystack@.len(),
        needle@.len() > 0,
    ensures
        match r {
            Some(p) => {
                &&& from <= p
                &&& p + needle@.len() <= haystack@.len()
                &&& needle@.is_prefix_of(haystack@.skip(p as int))
                &&& forall|q: int|
                    from <= q < p ==> !needle@.is_prefix_of(haystack@.skip(q))
            },
            None => forall|q: int|
                from <= q <= haystack@.len() ==> !needle@.is_prefix_of(haystack@.skip(q)),
        },
{
    let haystack_len = haystack.unicode_len();
    let mut p = from;
    while p < haystack_len
        invariant
            from <= p <= haystack_len,
            forall|q: int| from <= q < p ==> !needle@.is_prefix_of(haystack@.skip(q)),
        decreases haystack_len - p,
    {
        if string_matches_at(haystack, needle, p) {
            return Some(p);
        }
        p = p + 1;
    }
    proof {
        assert(haystack@.skip(haystack_len as int).len() == 0);
    }
    None
}

} // verus!
