//! Stop sequences over streamed text: what may be shown while a stop may
//! still be coming, and where the text ends once one has come.

use vstd::prelude::*;
use vstd::string::*;

use crate::text::{chars_of, find_from, has_at, push_range, stands_at};

verus! {

/// Whether the last `l` characters of `text` begin `stop` without filling it.
pub open spec fn overlaps(text: Seq<char>, stop: Seq<char>, l: int) -> bool {
    0 <= l <= text.len() && l < stop.len() && text.subrange(text.len() - l, text.len() as int)
        == stop.take(l)
}

/// The most characters at the end of `text` that begin `stop`, up to `l`.
pub open spec fn overlap_up_to(text: Seq<char>, stop: Seq<char>, l: nat) -> nat
    decreases l,
{
    if l == 0 || overlaps(text, stop, l as int) {
        l
    } else {
        overlap_up_to(text, stop, (l - 1) as nat)
    }
}

/// How much of the end of `text` may become `stop` with more text.
pub open spec fn overlap(text: Seq<char>, stop: Seq<char>) -> nat {
    overlap_up_to(text, stop, text.len())
}

/// How much of the end of `text` may become one of the first `n` stops.
pub open spec fn held(text: Seq<char>, stops: Seq<Seq<char>>, n: nat) -> nat
    decreases n,
{
    if n == 0 {
        0
    } else {
        let rest = held(text, stops, (n - 1) as nat);
        let own = overlap(text, stops[n - 1]);
        if own > rest {
            own
        } else {
            rest
        }
    }
}

/// Whether a stop stands in `text`.
pub open spec fn stopped(text: Seq<char>, stops: Seq<Seq<char>>) -> bool {
    exists|k: int, at: int| 0 <= k < stops.len() && #[trigger] stands_at(text, at, stops[k])
}

/// `at` is the first place in `text` where a stop stands.
pub open spec fn first_stop(text: Seq<char>, stops: Seq<Seq<char>>, at: int) -> bool {
    &&& exists|k: int| 0 <= k < stops.len() && #[trigger] stands_at(text, at, stops[k])
    &&& forall|k: int, j: int|
        0 <= k < stops.len() && j < at ==> !#[trigger] stands_at(text, j, stops[k])
}

/// The longest end of `text` that begins `stop` without filling it.
pub fn tail_overlap(text: &Vec<char>, stop: &Vec<char>) -> (l: usize)
    ensures
        l == overlap(text@, stop@),
{
    let n: usize = text.len();
    let mut l: usize = n;
    while l > 0
        invariant
            l <= n == text@.len(),
            overlap(text@, stop@) == overlap_up_to(text@, stop@, l as nat),
        decreases l,
    {
        if l < stop.len() {
            let mut head: Vec<char> = Vec::new();
            let mut i: usize = 0;
            while i < l
                invariant
                    i <= l < stop@.len(),
                    head@ == stop@.take(i as int),
                decreases l - i,
            {
                head.push(stop[i]);
                i = i + 1;
                assert(head@ =~= stop@.take(i as int));
            }
            if has_at(text, n - l, &head) {
                assert(overlaps(text@, stop@, l as int));
                return l;
            }
            assert(!overlaps(text@, stop@, l as int));
        }
        l = l - 1;
    }
    0
}

/// Text on its way out, held back where it may become a stop.
#[derive(Debug)]
pub struct StopFilter {
    stops: Vec<Vec<char>>,
    text: Vec<char>,
    printed: usize,
}

impl StopFilter {
    pub closed spec fn stops(self) -> Seq<Seq<char>> {
        self.stops@.map_values(|s: Vec<char>| s@)
    }

    /// All text so far.
    pub closed spec fn text(self) -> Seq<char> {
        self.text@
    }

    /// How much of it has been handed out.
    pub closed spec fn printed(self) -> int {
        self.printed as int
    }

    /// No more has been handed out than there is.
    pub open spec fn wf(self) -> bool {
        0 <= self.printed() <= self.text().len()
    }

    /// No stop can begin in what has been handed out: more text may come.
    pub open spec fn listens(self) -> bool {
        &&& self.wf()
        &&& none_begins(self.text(), self.stops(), self.printed())
    }

    pub fn new(stops: &Vec<String>) -> (f: Self)
        ensures
            f.listens(),
            f.stops() == stops@.map_values(|s: String| s@),
            f.text().len() == 0,
            f.printed() == 0,
    {
        let mut list: Vec<Vec<char>> = Vec::new();
        let mut k: usize = 0;
        while k < stops.len()
            invariant
                k <= stops@.len(),
                list@.len() == k,
                forall|j: int| 0 <= j < k ==> (#[trigger] list@[j])@ == stops@[j]@,
            decreases stops@.len() - k,
        {
            list.push(chars_of(stops[k].as_str()));
            k = k + 1;
        }
        let f = StopFilter { stops: list, text: Vec::new(), printed: 0 };
        assert(f.stops() =~= stops@.map_values(|s: String| s@));
        f
    }

    /// Takes more text and gives what may be shown of it; `false` once a stop
    /// has come, which is shown no part of, nor anything behind it. A stop
    /// without any text has come at once.
    #[verifier::spinoff_prover]
    pub fn push(&mut self, piece: &str) -> (r: (String, bool))
        requires
            old(self).listens(),
            old(self).text().len() + piece@.len() <= usize::MAX,
        ensures
            final(self).stops() == old(self).stops(),
            final(self).text() == old(self).text() + piece@,
            r.1 == !stopped(final(self).text(), old(self).stops()),
            r.1 ==> {
                let safe = final(self).text().len() - held(
                    final(self).text(),
                    old(self).stops(),
                    old(self).stops().len(),
                );
                &&& final(self).listens()
                &&& final(self).printed() == (if safe > old(self).printed() {
                    safe
                } else {
                    old(self).printed()
                })
                &&& (r.0)@ == final(self).text().subrange(
                    old(self).printed(),
                    final(self).printed(),
                )
            },
            !r.1 ==> exists|at: int|
                old(self).printed() <= at <= final(self).text().len() && #[trigger] first_stop(
                    final(self).text(),
                    old(self).stops(),
                    at,
                ) && (r.0)@ == final(self).text().subrange(old(self).printed(), at),
            !r.1 ==> final(self).wf() && final(self).printed() == final(self).text().len(),
    {
        let ghost before = self.text@;
        let ghost stops = self.stops();
        let more = chars_of(piece);
        let mut i: usize = 0;
        while i < more.len()
            invariant
                i <= more@.len(),
                more@ == piece@,
                self.stops() == stops,
                self.printed == old(self).printed,
                self.text@ == before + more@.take(i as int),
            decreases more@.len() - i,
        {
            self.text.push(more[i]);
            i = i + 1;
            assert(self.text@ =~= before + more@.take(i as int));
        }
        assert(more@.take(i as int) =~= more@);
        let ghost text = self.text@;
        proof {
            lemma_still_none(before, piece@, stops, self.printed as int);
        }
        let mut out: String = String::new();
        match self.find_stop() {
            Some(at) => {
                proof {
                    lemma_stop_behind(text, stops, self.printed as int, at as int);
                }
                push_range(&mut out, &self.text, self.printed, at);
                assert(out@ =~= text.subrange(self.printed as int, at as int));
                self.printed = self.text.len();
                proof {
                    assert(self.text() == text && text == before + piece@);
                    assert(first_stop(self.text(), stops, at as int));
                    assert(out@ == self.text().subrange(old(self).printed(), at as int));
                }
                (out, false)
            },
            None => {
                let hold: usize = self.hold();
                proof {
                    lemma_held_bound(text, stops, stops.len());
                }
                let safe: usize = self.text.len() - hold;
                if safe > self.printed {
                    push_range(&mut out, &self.text, self.printed, safe);
                    assert(out@ =~= text.subrange(self.printed as int, safe as int));
                    self.printed = safe;
                    proof {
                        lemma_none_before(text, stops, safe as int);
                    }
                } else {
                    assert(out@ =~= text.subrange(self.printed as int, self.printed as int));
                }
                (out, true)
            },
        }
    }

    /// The first place where a stop stands.
    fn find_stop(&self) -> (r: Option<usize>)
        ensures
            match r {
                Some(at) => first_stop(self.text(), self.stops(), at as int) && at
                    <= self.text().len(),
                None => !stopped(self.text(), self.stops()),
            },
    {
        let mut best: Option<usize> = None;
        let mut k: usize = 0;
        while k < self.stops.len()
            invariant
                k <= self.stops@.len(),
                match best {
                    Some(at) => {
                        &&& at <= self.text@.len()
                        &&& exists|j: int|
                            0 <= j < k && #[trigger] stands_at(
                                self.text@,
                                at as int,
                                self.stops()[j],
                            )
                        &&& forall|j: int, i: int|
                            0 <= j < k && i < at ==> !#[trigger] stands_at(
                                self.text@,
                                i,
                                self.stops()[j],
                            )
                    },
                    None => forall|j: int, i: int|
                        0 <= j < k ==> !#[trigger] stands_at(self.text@, i, self.stops()[j]),
                },
            decreases self.stops@.len() - k,
        {
            assert(self.stops()[k as int] == self.stops@[k as int]@);
            match find_from(&self.text, 0, &self.stops[k]) {
                Some(at) => {
                    match best {
                        Some(b) => {
                            if at < b {
                                best = Some(at);
                            }
                        },
                        None => {
                            best = Some(at);
                        },
                    }
                },
                None => {},
            }
            k = k + 1;
        }
        best
    }

    fn hold(&self) -> (n: usize)
        ensures
            n == held(self.text(), self.stops(), self.stops().len()),
    {
        let mut n: usize = 0;
        let mut k: usize = 0;
        while k < self.stops.len()
            invariant
                k <= self.stops@.len(),
                n == held(self.text(), self.stops(), k as nat),
            decreases self.stops@.len() - k,
        {
            let own: usize = tail_overlap(&self.text, &self.stops[k]);
            assert(self.stops()[k as int] == self.stops@[k as int]@);
            if own > n {
                n = own;
            }
            k = k + 1;
        }
        n
    }

    /// The text that was held back, once no more can come; none where a stop
    /// has come.
    pub fn rest(&self) -> (s: String)
        requires
            self.wf(),
        ensures
            s@ == self.text().subrange(self.printed(), self.text().len() as int),
    {
        let mut s: String = String::new();
        push_range(&mut s, &self.text, self.printed, self.text.len());
        assert(s@ =~= self.text().subrange(self.printed(), self.text().len() as int));
        s
    }
}

/// Whether a stop may begin at `at`: as far as there is text, it is the
/// stop's.
pub open spec fn may_begin(text: Seq<char>, stop: Seq<char>, at: int) -> bool {
    forall|j: int|
        0 <= j < stop.len() && at + j < text.len() ==> #[trigger] text[at + j] == stop[j]
}

/// No stop may begin before `end`.
pub open spec fn none_begins(text: Seq<char>, stops: Seq<Seq<char>>, end: int) -> bool {
    forall|k: int, at: int|
        0 <= k < stops.len() && 0 <= at < end ==> !#[trigger] may_begin(text, stops[k], at)
}

proof fn lemma_still_none(before: Seq<char>, piece: Seq<char>, stops: Seq<Seq<char>>, end: int)
    requires
        none_begins(before, stops, end),
        0 <= end <= before.len(),
    ensures
        none_begins(before + piece, stops, end),
{
    let text = before + piece;
    assert forall|k: int, at: int|
        0 <= k < stops.len() && 0 <= at < end implies !#[trigger] may_begin(text, stops[k], at) by {
        assert(!may_begin(before, stops[k], at));
        let j = choose|j: int|
            0 <= j < stops[k].len() && at + j < before.len() && #[trigger] before[at + j]
                != stops[k][j];
        assert(text[at + j] == before[at + j]);
    }
}

proof fn lemma_stop_behind(text: Seq<char>, stops: Seq<Seq<char>>, end: int, at: int)
    requires
        none_begins(text, stops, end),
        first_stop(text, stops, at),
        0 <= end <= text.len(),
    ensures
        end <= at,
{
    let k = choose|k: int| 0 <= k < stops.len() && #[trigger] stands_at(text, at, stops[k]);
    if at < end {
        assert forall|j: int| 0 <= j < stops[k].len() && at + j < text.len() implies
            #[trigger] text[at + j] == stops[k][j] by {
            assert(text.subrange(at, at + stops[k].len())[j] == stops[k][j]);
        }
        assert(may_begin(text, stops[k], at));
    }
}

proof fn lemma_overlap_longest(text: Seq<char>, stop: Seq<char>, l: nat, m: int)
    requires
        overlaps(text, stop, m),
        m <= l,
    ensures
        m <= overlap_up_to(text, stop, l),
    decreases l,
{
    if l > 0 && !overlaps(text, stop, l as int) {
        lemma_overlap_longest(text, stop, (l - 1) as nat, m);
    }
}

proof fn lemma_overlap_bound(text: Seq<char>, stop: Seq<char>, l: nat)
    ensures
        overlap_up_to(text, stop, l) <= l,
    decreases l,
{
    if l > 0 && !overlaps(text, stop, l as int) {
        lemma_overlap_bound(text, stop, (l - 1) as nat);
    }
}

proof fn lemma_held_bound(text: Seq<char>, stops: Seq<Seq<char>>, n: nat)
    requires
        n <= stops.len(),
    ensures
        held(text, stops, n) <= text.len(),
        forall|k: int| 0 <= k < n ==> overlap(text, #[trigger] stops[k]) <= held(text, stops, n),
    decreases n,
{
    if n > 0 {
        lemma_held_bound(text, stops, (n - 1) as nat);
        lemma_overlap_bound(text, stops[n - 1], text.len());
    }
}

proof fn lemma_none_before(text: Seq<char>, stops: Seq<Seq<char>>, safe: int)
    requires
        !stopped(text, stops),
        safe == text.len() - held(text, stops, stops.len()),
    ensures
        none_begins(text, stops, safe),
{
    lemma_held_bound(text, stops, stops.len());
    assert forall|k: int, at: int|
        0 <= k < stops.len() && 0 <= at < safe implies !#[trigger] may_begin(text, stops[k], at) by {
        let stop = stops[k];
        if may_begin(text, stop, at) {
            let l = text.len() - at;
            if l < stop.len() {
                assert(text.subrange(at, text.len() as int) =~= stop.take(l)) by {
                    assert forall|j: int| 0 <= j < l implies #[trigger] text.subrange(
                        at,
                        text.len() as int,
                    )[j] == stop.take(l)[j] by {
                        assert(text[at + j] == stop[j]);
                    }
                }
                assert(overlaps(text, stop, l));
                lemma_overlap_longest(text, stop, text.len(), l);
                assert(overlap(text, stop) <= held(text, stops, stops.len()));
            } else {
                assert(text.subrange(at, at + stop.len()) =~= stop) by {
                    assert forall|j: int| 0 <= j < stop.len() implies #[trigger] text.subrange(
                        at,
                        at + stop.len(),
                    )[j] == stop[j] by {
                        assert(text[at + j] == stop[j]);
                    }
                }
                assert(stands_at(text, at, stop));
            }
        }
    }
}

/// A stop without any text stands at the start of every text.
pub proof fn lemma_blank_stop(text: Seq<char>, stops: Seq<Seq<char>>, k: int)
    requires
        0 <= k < stops.len(),
        stops[k].len() == 0,
    ensures
        stopped(text, stops),
        first_stop(text, stops, 0),
{
    assert(text.subrange(0, 0) =~= stops[k]);
    assert(stands_at(text, 0, stops[k]));
}

/// What is held back is the longest end of the text that begins some stop
/// without filling it: nothing longer could still become one, and nothing
/// shorter would do.
pub proof fn lemma_held_is_longest(text: Seq<char>, stops: Seq<Seq<char>>, n: nat)
    requires
        n <= stops.len(),
    ensures
        forall|k: int, l: int|
            0 <= k < n && 0 <= l <= text.len() && l < stops[k].len() && text.subrange(
                text.len() - l,
                text.len() as int,
            ) == #[trigger] stops[k].take(l) ==> l <= held(text, stops, n),
        held(text, stops, n) > 0 ==> exists|k: int|
            {
                let l = held(text, stops, n) as int;
                &&& 0 <= k < n && l <= text.len() && l < stops[k].len()
                &&& text.subrange(text.len() - l, text.len() as int) == (#[trigger] stops[k]).take(
                    l,
                )
            },
    decreases n,
{
    lemma_held_bound(text, stops, n);
    assert forall|k: int, l: int|
        0 <= k < n && 0 <= l <= text.len() && l < stops[k].len() && text.subrange(
            text.len() - l,
            text.len() as int,
        ) == #[trigger] stops[k].take(l) implies l <= held(text, stops, n) by {
        assert(overlaps(text, stops[k], l));
        lemma_overlap_longest(text, stops[k], text.len(), l);
        assert(overlap(text, stops[k]) <= held(text, stops, n));
    }
    if n > 0 {
        lemma_held_is_longest(text, stops, (n - 1) as nat);
        let own = overlap(text, stops[n - 1]);
        lemma_overlap_holds(text, stops[n - 1], text.len());
        lemma_overlap_bound(text, stops[n - 1], text.len());
        if held(text, stops, n) > 0 && own == held(text, stops, n) {
            assert(overlaps(text, stops[n - 1], own as int));
        }
    }
}

proof fn lemma_overlap_holds(text: Seq<char>, stop: Seq<char>, l: nat)
    ensures
        overlap_up_to(text, stop, l) > 0 ==> overlaps(
            text,
            stop,
            overlap_up_to(text, stop, l) as int,
        ),
    decreases l,
{
    if l > 0 && !overlaps(text, stop, l as int) {
        lemma_overlap_holds(text, stop, (l - 1) as nat);
    }
}

/// A text is stopped exactly where some stop stands in it, at any place and
/// however many stops there are; the first stop leaves none in front of it.
pub proof fn lemma_stop_stands(text: Seq<char>, stops: Seq<Seq<char>>, k: int, a: Seq<char>, b: Seq<char>)
    ensures
        0 <= k < stops.len() && text == a + stops[k] + b ==> stopped(text, stops),
        stopped(text, stops) ==> exists|j: int, c: Seq<char>, d: Seq<char>|
            0 <= j < stops.len() && text == #[trigger] (c + stops[j] + d),
        forall|at: int| #[trigger]
            first_stop(text, stops, at) ==> 0 <= at <= text.len() && !stopped_within(
                text,
                stops,
                at,
            ),
{
    if 0 <= k < stops.len() && text == a + stops[k] + b {
        assert(text.subrange(a.len() as int, (a.len() + stops[k].len()) as int) =~= stops[k]);
        assert(stands_at(text, a.len() as int, stops[k]));
    }
    if stopped(text, stops) {
        let (j, at) = choose|j: int, at: int|
            0 <= j < stops.len() && #[trigger] stands_at(text, at, stops[j]);
        let c = text.take(at);
        let d = text.skip(at + stops[j].len());
        assert(text =~= c + stops[j] + d);
    }
}

/// Some stop begins in front of `end`.
pub open spec fn stopped_within(text: Seq<char>, stops: Seq<Seq<char>>, end: int) -> bool {
    exists|k: int, j: int| 0 <= k < stops.len() && j < end && #[trigger] stands_at(text, j, stops[k])
}

} // verus!
