//! Tasks of a plain-text to-do list: content with context and project tags,
//! optional dates, priority and completion state, together with the sorted
//! list type used to keep tasks in a chosen order.
//!
//! Text is pinned down at the level of its encoded bytes, `str_bytes`: that
//! is the identity of a string, and the comparators order tasks by it
//! exactly as the byte-wise order of the standard library does.

use vstd::prelude::*;
use vstd::multiset::Multiset;
use vstd::string::StringExecFns;
use vstd::string::StringSliceAdditionalSpecFns;

use crate::dates::Date;
use crate::dates::lemma_date3;
use crate::dates::read_date_at;
use crate::dates::valid_ymd;
use crate::dates::date_bytes;
use crate::dates::ymd_chars;
use crate::order::lex_le;
use crate::order::bytes_le;
use crate::order::str_bytes;
use crate::order::Classifier;
use crate::order::Comparator;
use crate::order::NaturalOrder;
use crate::order::lemma_lex_le_total;
use crate::order::lemma_lex_le_trans;
use crate::order::lemma_ascii_is_boundary;
use crate::order::lemma_boundary_after_ascii;

verus! {

/// The key a task list is ordered by.
#[derive(Clone, Copy)]
pub enum SortTaskBy {
    CreationDate,
    Content,
    Priority,
}

/// One task: its content, the tags found in the content, its dates, its
/// priority and its completion state.
#[derive(Clone, Debug)]
pub struct Task {
    /// The text of the task.
    pub content: String,
    /// When the task should be done.
    duedate: Option<Date>,
    /// Whether the task is done.
    pub completion: bool,
    /// When the task was completed.
    pub completion_date: Option<Date>,
    /// When the task was created.
    pub creation_date: Option<Date>,
    /// The priority, a letter between A and Z.
    pub priority: Option<char>,
    /// The project tags of the content, sorted without duplicates.
    project_tags: Vec<String>,
    /// The context tags of the content, sorted without duplicates.
    context_tags: Vec<String>,
    /// Free key-and-value tags carried at the end of the text form.
    custom_tags: Vec<(String, String)>,
}

/// Three-way comparison of two byte sequences under the lexicographic order.
pub open spec fn cmp3_bytes(x: Seq<u8>, y: Seq<u8>) -> core::cmp::Ordering {
    if lex_le(x, y) && lex_le(y, x) {
        core::cmp::Ordering::Equal
    } else if lex_le(x, y) {
        core::cmp::Ordering::Less
    } else {
        core::cmp::Ordering::Greater
    }
}

/// A strictly sorted, duplicate-free sequence of strings under the byte-wise
/// order.
pub open spec fn sorted_tags(tags: Seq<String>) -> bool {
    forall|i: int, j: int|
        #![trigger tags[i], tags[j]]
        0 <= i < j < tags.len() ==> lex_le(str_bytes(tags[i]), str_bytes(tags[j])) && !lex_le(
            str_bytes(tags[j]),
            str_bytes(tags[i]),
        )
}

/// Some string of `s` has exactly the bytes `x`.
pub open spec fn has_text(s: Seq<String>, x: Seq<u8>) -> bool {
    exists|i: int| 0 <= i < s.len() && str_bytes(#[trigger] s[i]) == x
}

/// Positions `i` to `j` of `b` hold a word led by the marker byte at a word
/// boundary: the marker follows a space or starts the text, and the word
/// runs to the next space or to the end.
pub open spec fn marked_span(b: Seq<u8>, marker: u8, i: int, j: int) -> bool {
    &&& 0 <= i
    &&& i + 1 < j <= b.len()
    &&& b[i] == marker
    &&& i == 0 || b[i - 1] == 32
    &&& j == b.len() || b[j] == 32
    &&& forall|p: int| i < p < j ==> b[p] != 32
}

/// `x` is one of the marker-led words of `b`, without its marker.
pub open spec fn is_marked_word(b: Seq<u8>, marker: u8, x: Seq<u8>) -> bool {
    exists|i: int, j: int|
        #![trigger marked_span(b, marker, i, j)]
        marked_span(b, marker, i, j) && x == b.subrange(i + 1, j)
}

/// `x` is a marker-led word of `b` whose marker stands before `limit`.
pub open spec fn marked_word_before(b: Seq<u8>, marker: u8, x: Seq<u8>, limit: int) -> bool {
    exists|i: int, j: int|
        #![trigger marked_span(b, marker, i, j)]
        marked_span(b, marker, i, j) && i < limit && x == b.subrange(i + 1, j)
}

/// Examines the word standing at positions `ts` to `j` of `b`: the position
/// of its single colon when the word is a key-and-value tag, nothing
/// otherwise.
fn token_tag_info(b: &[u8], ts: usize, j: usize) -> (r: Option<usize>)
    requires
        ts <= j <= b@.len(),
    ensures
        r is Some <==> tag_token(b@, ts as int, j as int),
        r is Some ==> r.unwrap() as int == first_colon(b@, ts as int, j as int) && ts
            < r.unwrap() && r.unwrap() + 1 < j,
{
    let mut colons: usize = 0;
    let mut cpos: usize = j;
    let mut k = ts;
    while k < j
        invariant
            ts <= k <= j <= b@.len(),
            colons as int == count_colons(b@, ts as int, k as int),
            colons <= k,
            cpos as int == (if first_colon(b@, ts as int, k as int) < k {
                first_colon(b@, ts as int, k as int)
            } else {
                j as int
            }),
        decreases j - k,
    {
        proof {
            lemma_count_colons_extend(b@, ts as int, k as int);
            lemma_first_colon_extend(b@, ts as int, k as int);
        }
        if b[k] == 58 {
            if cpos == j {
                cpos = k;
            }
            colons = colons + 1;
        }
        k = k + 1;
    }
    if colons == 1 && ts < cpos && cpos < j && j - cpos > 1 {
        Some(cpos)
    } else {
        None
    }
}

/// Finds where the trailing tag run of `b` begins, walking the words and
/// keeping the start of the open chain of single-space-led tag words.
fn scan_tag_run(b: &[u8]) -> (cand: usize)
    ensures
        cand as int == content_end(b@),
        cand <= b@.len(),
        cand == b@.len() || b@[cand as int] == 32,
{
    let ghost rb = b@;
    let rn = b.len();
    let mut cand: usize = rn;
    let mut last_end: usize = 0;
    let mut i: usize = 0;
    while i < rn
        invariant
            i <= rn,
            rn == rb.len(),
            b@ == rb,
            last_end <= i,
            cand <= rn,
            cand == rn || rb[cand as int] == 32,
            scan_tags(rb, 0, rb.len() as int, 0) == scan_tags(
                rb,
                i as int,
                cand as int,
                last_end as int,
            ),
        decreases rn - i,
    {
        if b[i] == 32 {
            proof {
                assert(scan_tags(rb, i as int, cand as int, last_end as int) == scan_tags(
                    rb,
                    i + 1,
                    cand as int,
                    last_end as int,
                ));
            }
            i = i + 1;
        } else {
            let ts = i;
            let mut j = ts;
            while j < rn && b[j] != 32
                invariant
                    ts <= j <= rn,
                    rn == rb.len(),
                    b@ == rb,
                    token_end(rb, ts as int) == token_end(rb, j as int),
                decreases rn - j,
            {
                proof {
                    assert(token_end(rb, j as int) == token_end(rb, j + 1));
                }
                j = j + 1;
            }
            proof {
                assert(token_end(rb, ts as int) == j as int);
            }
            let tag = token_tag_info(b, ts, j);
            if tag.is_some() && ts > 0 && b[ts - 1] == 32 {
                if cand == rn || ts - last_end != 1 {
                    cand = ts - 1;
                }
            } else {
                cand = rn;
            }
            proof {
                assert(scan_tags(rb, 0, rb.len() as int, 0) == scan_tags(
                    rb,
                    j as int,
                    cand as int,
                    j as int,
                ));
            }
            last_end = j;
            i = j;
        }
    }
    proof {
        assert(scan_tags(rb, i as int, cand as int, last_end as int) == cand as int);
    }
    cand
}

/// Collects the key-and-value pairs of a trailing tag run, block by block:
/// one space, a key, a colon, a value.
fn collect_tag_pairs(run_part: &str) -> (tags: Vec<(String, String)>)
    ensures
        pairs_bytes(tags@) == tag_pairs(run_part.spec_bytes()),
{
    let ghost rub = run_part.spec_bytes();
    proof {
        vstd::utf8::encode_utf8_valid_utf8(run_part@);
    }
    let runb = run_part.as_bytes();
    let run_n = runb.len();
    let mut tags: Vec<(String, String)> = Vec::new();
    let mut cur: usize = 0;
    proof {
        assert(rub.skip(0) =~= rub);
        assert(pairs_bytes(tags@) =~= Seq::<(Seq<u8>, Seq<u8>)>::empty());
        assert(pairs_bytes(tags@) + tag_pairs(rub) =~= tag_pairs(rub));
    }
    loop
        invariant
            cur <= run_n,
            run_n == runb@.len(),
            runb@ == rub,
            rub == run_part.spec_bytes(),
            vstd::utf8::valid_utf8(rub),
            tag_pairs(rub) == pairs_bytes(tags@) + tag_pairs(rub.skip(cur as int)),
        ensures
            tag_pairs(rub) == pairs_bytes(tags@),
        decreases run_n - cur,
    {
        if cur == run_n {
            proof {
                assert(rub.skip(cur as int) =~= Seq::<u8>::empty());
                assert(tag_pairs(rub.skip(cur as int)) =~= Seq::<(Seq<u8>, Seq<u8>)>::empty());
                assert(tag_pairs(rub) =~= pairs_bytes(tags@));
            }
            break ;
        }
        let ghost suffix = rub.skip(cur as int);
        if runb[cur] != 32 {
            proof {
                assert(suffix[0] == rub[cur as int]);
                assert(tag_pairs(suffix) =~= Seq::<(Seq<u8>, Seq<u8>)>::empty());
                assert(tag_pairs(rub) =~= pairs_bytes(tags@));
            }
            break ;
        }
        let ts = cur + 1;
        let mut j = ts;
        while j < run_n && runb[j] != 32
            invariant
                ts <= j <= run_n,
                run_n == runb@.len(),
                runb@ == rub,
                token_end(rub, ts as int) == token_end(rub, j as int),
            decreases run_n - j,
        {
            proof {
                assert(token_end(rub, j as int) == token_end(rub, j + 1));
            }
            j = j + 1;
        }
        proof {
            assert(token_end(rub, ts as int) == j as int);
            lemma_token_end_shift(rub, cur as int, 1);
            assert(token_end(suffix, 1) == j - cur);
        }
        let tag = token_tag_info(runb, ts, j);
        match tag {
            None => {
                proof {
                    lemma_count_colons_shift(rub, cur as int, 1, j - cur);
                    lemma_first_colon_shift(rub, cur as int, 1, j - cur);
                    assert(!tag_token(suffix, 1, j - cur));
                    assert(tag_pairs(suffix) =~= Seq::<(Seq<u8>, Seq<u8>)>::empty());
                    assert(tag_pairs(rub) =~= pairs_bytes(tags@));
                }
                break ;
            },
            Some(cpos) => {
                proof {
                    lemma_count_colons_shift(rub, cur as int, 1, j - cur);
                    lemma_first_colon_shift(rub, cur as int, 1, j - cur);
                    assert(tag_token(suffix, 1, j - cur));
                    assert(first_colon(suffix, 1, j - cur) == cpos - cur);
                    // every split position sits at or right after an ASCII
                    // byte
                    assert(rub[cur as int] == 32);
                    crate::order::lemma_boundary_after_ascii(rub, cur as int);
                    assert(rub[cpos as int] == 58) by {
                        assert(suffix[cpos - cur] == rub[cpos as int]);
                        lemma_first_colon_is_colon(suffix, 1, j - cur);
                    }
                    crate::order::lemma_ascii_is_boundary(rub, cpos as int);
                    crate::order::lemma_boundary_after_ascii(rub, cpos as int);
                    crate::order::lemma_ascii_is_boundary(rub, j as int);
                }
                let (_, t1) = run_part.split_at(ts);
                proof {
                    assert(t1.spec_bytes() =~= rub.subrange(ts as int, run_n as int));
                    vstd::utf8::encode_utf8_valid_utf8(t1@);
                    crate::order::lemma_ascii_is_boundary(t1.spec_bytes(), cpos - ts);
                }
                let (keypart, _) = t1.split_at(cpos - ts);
                let (_, t2) = run_part.split_at(cpos + 1);
                proof {
                    assert(t2.spec_bytes() =~= rub.subrange(cpos + 1, run_n as int));
                    vstd::utf8::encode_utf8_valid_utf8(t2@);
                    crate::order::lemma_ascii_is_boundary(t2.spec_bytes(), j - (cpos + 1));
                }
                let (valpart, _) = t2.split_at(j - (cpos + 1));
                let key = keypart.to_owned();
                let val = valpart.to_owned();
                let ghost pretags = tags@;
                proof {
                    assert(str_bytes(key) =~= rub.subrange(ts as int, cpos as int));
                    assert(str_bytes(val) =~= rub.subrange(cpos + 1, j as int));
                    assert(suffix.subrange(1, cpos - cur) =~= rub.subrange(
                        ts as int,
                        cpos as int,
                    ));
                    assert(suffix.subrange(cpos - cur + 1, j - cur) =~= rub.subrange(
                        cpos + 1,
                        j as int,
                    ));
                }
                tags.push((key, val));
                proof {
                    assert(suffix.skip(j - cur) =~= rub.skip(j as int));
                    assert(tag_pairs(suffix) == seq![
                        (
                            suffix.subrange(1, cpos - cur),
                            suffix.subrange(cpos - cur + 1, j - cur),
                        ),
                    ] + tag_pairs(rub.skip(j as int)));
                    assert(pairs_bytes(tags@) =~= pairs_bytes(pretags).push(
                        (str_bytes(key), str_bytes(val)),
                    ));
                    assert(tag_pairs(rub) =~= pairs_bytes(tags@) + tag_pairs(
                        rub.skip(j as int),
                    ));
                }
                cur = j;
            },
        }
    }
    tags
}

impl Task {
    /// When the task should be done.
    pub closed spec fn due(self) -> Option<Date> {
        self.duedate
    }

    /// The text of the task.
    pub closed spec fn text(self) -> Seq<char> {
        self.content@
    }

    /// Whether the task is done.
    pub closed spec fn done(self) -> bool {
        self.completion
    }

    /// The priority letter, if any.
    pub closed spec fn prio(self) -> Option<char> {
        self.priority
    }

    /// When the task was created, if known.
    pub closed spec fn created(self) -> Option<Date> {
        self.creation_date
    }

    /// When the task was completed, if it is done.
    pub closed spec fn completed_on(self) -> Option<Date> {
        self.completion_date
    }

    /// The project tags, as character sequences.
    pub closed spec fn ptags(self) -> Seq<String> {
        self.project_tags@
    }

    /// The context tags, as character sequences.
    pub closed spec fn ctags(self) -> Seq<String> {
        self.context_tags@
    }

    /// The custom key-and-value tags.
    pub closed spec fn custom(self) -> Seq<(String, String)> {
        self.custom_tags@
    }

    /// A task with no content, no tags, no dates: the blank slate every
    /// construction starts from.
    pub fn empty() -> (r: Task)
        ensures
            r.text() == Seq::<char>::empty(),
            r.due() is None,
            !r.done(),
            r.completed_on() is None,
            r.created() is None,
            r.prio() is None,
            r.ptags() == Seq::<String>::empty(),
            r.ctags() == Seq::<String>::empty(),
            r.custom() == Seq::<(String, String)>::empty(),
    {
        proof {
            reveal_strlit("");
        }
        let r = Task {
            content: String::from_str(""),
            duedate: None,
            completion: false,
            context_tags: Vec::new(),
            project_tags: Vec::new(),
            priority: None,
            creation_date: None,
            completion_date: None,
            custom_tags: Vec::new(),
        };
        proof {
            assert(r.content@ =~= Seq::<char>::empty());
        }
        r
    }

    /// A fresh task with the given content, its tags extracted, created
    /// today by the clock; a clock outside the four-digit years leaves the
    /// creation date unset.
    pub fn new(content: String) -> (r: Task)
        ensures
            r.text() == content@,
            r.due() is None,
            !r.done(),
            r.completed_on() is None,
            r.created() is Some ==> r.created().unwrap().wf(),
            r.prio() is None,
            sorted_tags(r.ptags()),
            sorted_tags(r.ctags()),
            forall|x: Seq<u8>| #[trigger]
                has_text(r.ptags(), x) <==> is_marked_word(
                    vstd::utf8::encode_utf8(r.text()),
                    43,
                    x,
                ),
            forall|x: Seq<u8>| #[trigger]
                has_text(r.ctags(), x) <==> is_marked_word(
                    vstd::utf8::encode_utf8(r.text()),
                    64,
                    x,
                ),
    {
        let mut task = Task::empty();
        task.set_content(content);
        let (y, m, d) = today_ymd();
        task.creation_date = Date::new(y, m, d);
        task
    }

    /// A fresh task with the given content and due date.
    pub fn new_with_date(content: String, date: Date) -> (r: Task)
        ensures
            r.text() == content@,
            r.due() == Some(date),
            !r.done(),
            r.completed_on() is None,
            r.created() is Some ==> r.created().unwrap().wf(),
            r.prio() is None,
            sorted_tags(r.ptags()),
            sorted_tags(r.ctags()),
            forall|x: Seq<u8>| #[trigger]
                has_text(r.ptags(), x) <==> is_marked_word(
                    vstd::utf8::encode_utf8(r.text()),
                    43,
                    x,
                ),
            forall|x: Seq<u8>| #[trigger]
                has_text(r.ctags(), x) <==> is_marked_word(
                    vstd::utf8::encode_utf8(r.text()),
                    64,
                    x,
                ),
    {
        let mut t = Task::new(content);
        t.set_due(Some(date));
        t
    }

    /// Replaces the content and extracts its tags anew.
    pub fn set_content(&mut self, content: String)
        ensures
            final(self).text() == content@,
            sorted_tags(final(self).ptags()),
            sorted_tags(final(self).ctags()),
            forall|x: Seq<u8>| #[trigger]
                has_text(final(self).ptags(), x) <==> is_marked_word(
                    vstd::utf8::encode_utf8(final(self).text()),
                    43,
                    x,
                ),
            forall|x: Seq<u8>| #[trigger]
                has_text(final(self).ctags(), x) <==> is_marked_word(
                    vstd::utf8::encode_utf8(final(self).text()),
                    64,
                    x,
                ),
            final(self).due() == old(self).due(),
            final(self).done() == old(self).done(),
            final(self).completed_on() == old(self).completed_on(),
            final(self).created() == old(self).created(),
            final(self).prio() == old(self).prio(),
            final(self).custom() == old(self).custom(),
    {
        self.content = content;
        self.extract_tags();
    }

    /// The text of the task.
    pub fn get_content(&self) -> (r: &String)
        ensures
            r@ == self.text(),
    {
        &self.content
    }

    /// The context tags, sorted and without duplicates.
    pub fn get_context_tags(&self) -> (r: &Vec<String>)
        ensures
            r@ == self.ctags(),
    {
        &self.context_tags
    }

    /// The project tags, sorted and without duplicates.
    pub fn get_project_tags(&self) -> (r: &Vec<String>)
        ensures
            r@ == self.ptags(),
    {
        &self.project_tags
    }

    /// When the task should be done.
    pub fn get_due(&self) -> (r: &Option<Date>)
        ensures
            *r == self.due(),
    {
        &self.duedate
    }

    /// Sets or clears the due date; the `due` entry of the custom tags
    /// mirrors it in date text form.
    pub fn set_due(&mut self, date: Option<Date>)
        ensures
            final(self).due() == date,
            final(self).text() == old(self).text(),
            final(self).done() == old(self).done(),
            final(self).completed_on() == old(self).completed_on(),
            final(self).created() == old(self).created(),
            final(self).prio() == old(self).prio(),
            final(self).ptags() == old(self).ptags(),
            final(self).ctags() == old(self).ctags(),
            date is None ==> final(self).custom() == old(self).custom().filter(
                (|p: (String, String)| not_due(p)),
            ),
            date is Some ==> {
                let kept = old(self).custom().filter((|p: (String, String)| not_due(p)));
                &&& final(self).custom().len() == kept.len() + 1
                &&& final(self).custom().take(kept.len() as int) == kept
                &&& final(self).custom().last().0@ == due_key_text()
                &&& final(self).custom().last().1@ == ymd_chars(
                    date.unwrap().y(),
                    date.unwrap().m(),
                    date.unwrap().d(),
                )
            },
    {
        broadcast use vstd::seq_lib::group_filter_ensures;

        proof {
            reveal_strlit("due");
        }
        self.duedate = date;
        let ghost pred = |p: (String, String)| not_due(p);
        let key = String::from_str("due");
        let mut kept: Vec<(String, String)> = Vec::new();
        let mut olds: Vec<(String, String)> = Vec::new();
        core::mem::swap(&mut olds, &mut self.custom_tags);
        let ghost oldseq = olds@;
        let ghost consumed: int = 0;
        while olds.len() > 0
            invariant
                key@ == due_key_text(),
                0 <= consumed <= oldseq.len(),
                olds@ == oldseq.skip(consumed),
                kept@ == oldseq.take(consumed).filter(pred),
                pred == (|p: (String, String)| not_due(p)),
            decreases olds@.len(),
        {
            let ghost prefix = oldseq.take(consumed);
            let pair = olds.remove(0);
            proof {
                assert(pair == oldseq[consumed]);
                assert(olds@ =~= oldseq.skip(consumed + 1));
            }
            let same = {
                let a = pair.0.as_str().as_bytes();
                let b = key.as_str().as_bytes();
                bytes_le(a, b) && bytes_le(b, a)
            };
            proof {
                if same {
                    lemma_lex_le_antisym(str_bytes(pair.0), str_bytes(key));
                }
                assert(same <==> !not_due(pair)) by {
                    if str_bytes(pair.0) == vstd::utf8::encode_utf8(due_key_text()) {
                        lemma_lex_le_total(str_bytes(pair.0), str_bytes(key));
                    }
                }
                assert(oldseq.take(consumed + 1) =~= prefix.push(pair));
                prefix.lemma_filter_push(pair, pred);
            }
            if !same {
                kept.push(pair);
            }
            proof {
                consumed = consumed + 1;
            }
        }
        proof {
            assert(oldseq.take(consumed) =~= oldseq);
        }
        match date {
            Some(d) => {
                let txt = d.format_ymd();
                let ghost pre = kept@;
                kept.push((key, txt));
                proof {
                    assert(kept@.take(pre.len() as int) =~= pre);
                }
            },
            None => {},
        }
        self.custom_tags = kept;
    }

    /// Marks the task done now: the completion date is read from the clock,
    /// and a task completed without a creation date receives the same day as
    /// its creation date, so that no task is completed before it exists. A
    /// clock outside the four-digit years leaves both dates unset.
    pub fn set_completed(&mut self)
        ensures
            final(self).done(),
            old(self).created() is Some ==> final(self).created() == old(
                self,
            ).created(),
            old(self).created() is None
                ==> final(self).created() == final(self).completed_on(),
            final(self).text() == old(self).text(),
            final(self).due() == old(self).due(),
            final(self).prio() == old(self).prio(),
            final(self).ptags() == old(self).ptags(),
            final(self).ctags() == old(self).ctags(),
            final(self).custom() == old(self).custom(),
    {
        self.completion = true;
        let (y, m, d) = today_ymd();
        let today = Date::new(y, m, d);
        self.completion_date = today;
        if self.creation_date.is_none() {
            self.creation_date = today;
        }
    }

    /// Marks the task as still to do.
    pub fn set_not_completed(&mut self)
        ensures
            !final(self).done(),
            final(self).completed_on() is None,
            final(self).text() == old(self).text(),
            final(self).due() == old(self).due(),
            final(self).created() == old(self).created(),
            final(self).prio() == old(self).prio(),
            final(self).ptags() == old(self).ptags(),
            final(self).ctags() == old(self).ctags(),
            final(self).custom() == old(self).custom(),
    {
        self.completion = false;
        self.completion_date = None;
    }

    /// Reads the project and context tags out of the content: the project
    /// tags are exactly the content's words led by a plus sign, the context
    /// tags exactly those led by an at sign, each list sorted and without
    /// duplicates.
    fn extract_tags(&mut self)
        ensures
            sorted_tags(final(self).ptags()),
            sorted_tags(final(self).ctags()),
            forall|x: Seq<u8>| #[trigger]
                has_text(final(self).ptags(), x) <==> is_marked_word(
                    vstd::utf8::encode_utf8(final(self).text()),
                    43,
                    x,
                ),
            forall|x: Seq<u8>| #[trigger]
                has_text(final(self).ctags(), x) <==> is_marked_word(
                    vstd::utf8::encode_utf8(final(self).text()),
                    64,
                    x,
                ),
            final(self).text() == old(self).text(),
            final(self).due() == old(self).due(),
            final(self).done() == old(self).done(),
            final(self).completed_on() == old(self).completed_on(),
            final(self).created() == old(self).created(),
            final(self).prio() == old(self).prio(),
            final(self).custom() == old(self).custom(),
    {
        let projects = collect_marked_words(self.content.as_str(), 43);
        let contexts = collect_marked_words(self.content.as_str(), 64);
        self.project_tags = sort_dedup(projects);
        self.context_tags = sort_dedup(contexts);
    }


    /// The one-line display form: priority, due date, then the content.
    pub fn to_string(&self) -> (r: String)
        ensures
            r@ == priority_prefix_chars(self.prio()) + (match self.due() {
                Some(d) => ymd_chars(d.y(), d.m(), d.d()) + seq![' ', ':', ' '],
                None => Seq::<char>::empty(),
            }) + self.text(),
    {
        proof {
            reveal_strlit("(");
            reveal_strlit(") ");
            reveal_strlit(" : ");
        }
        let mut s = String::new();
        if let Some(priority) = self.priority {
            if let Some(p) = upper_str(priority) {
                s.append("(");
                s.append(p);
                s.append(") ");
            }
        }
        if let Some(date) = &self.duedate {
            let d = date.format_ymd();
            s.append(d.as_str());
            s.append(" : ");
        }
        s.append(self.content.as_str());
        proof {
            assert(s@ =~= priority_prefix_chars(self.prio()) + (match self.due() {
                Some(d) => ymd_chars(d.y(), d.m(), d.d()) + seq![' ', ':', ' '],
                None => Seq::<char>::empty(),
            }) + self.text());
        }
        s
    }

    /// The task-list text form: completion mark, priority, completion and
    /// creation dates, content, then the custom tags.
    pub fn to_todotxt(&self) -> (r: String)
        ensures
            r@ == (if self.done() {
                seq!['x', ' ']
            } else {
                Seq::<char>::empty()
            }) + priority_prefix_chars(self.prio()) + date_sp_chars(self.completed_on())
                + date_sp_chars(self.created()) + self.text() + custom_chars(self.custom()),
    {
        proof {
            reveal_strlit("x ");
            reveal_strlit("(");
            reveal_strlit(") ");
            reveal_strlit(" ");
            reveal_strlit(":");
        }
        let mut s = String::new();
        if self.completion {
            s.append("x ");
        }
        if let Some(priority) = self.priority {
            if let Some(p) = upper_str(priority) {
                s.append("(");
                s.append(p);
                s.append(") ");
            }
        }
        if let Some(date) = &self.completion_date {
            let d = date.format_ymd();
            s.append(d.as_str());
            s.append(" ");
        }
        if let Some(date) = &self.creation_date {
            let d = date.format_ymd();
            s.append(d.as_str());
            s.append(" ");
        }
        s.append(self.content.as_str());
        let ghost head = s@;
        let mut i: usize = 0;
        while i < self.custom_tags.len()
            invariant
                i <= self.custom_tags@.len(),
                s@ == head + custom_chars(self.custom_tags@.take(i as int)),
                " "@ =~= seq![' '],
                ":"@ =~= seq![':'],
            decreases self.custom_tags@.len() - i,
        {
            let pair = &self.custom_tags[i];
            s.append(" ");
            s.append(pair.0.as_str());
            s.append(":");
            s.append(pair.1.as_str());
            i = i + 1;
            proof {
                assert(self.custom_tags@.take(i as int) =~= self.custom_tags@.take(
                    i - 1,
                ).push(self.custom_tags@[i - 1]));
                lemma_custom_chars_push(
                    self.custom_tags@.take(i - 1),
                    self.custom_tags@[i - 1],
                );
                assert(s@ =~= head + custom_chars(self.custom_tags@.take(i as int)));
            }
        }
        proof {
            assert(self.custom_tags@.take(self.custom_tags@.len() as int)
                =~= self.custom_tags@);
            assert(head == (if self.done() {
                seq!['x', ' ']
            } else {
                Seq::<char>::empty()
            }) + priority_prefix_chars(self.prio()) + date_sp_chars(self.completed_on())
                + date_sp_chars(self.created()) + self.text()) by {
                assert(head =~= (if self.done() {
                    seq!['x', ' ']
                } else {
                    Seq::<char>::empty()
                }) + priority_prefix_chars(self.prio()) + date_sp_chars(self.completed_on())
                    + date_sp_chars(self.created()) + self.text());
            }
        }
        s
    }




    /// Reads one line of the task-list text form: an optional completion
    /// mark, an optional priority, an optional completion and creation date
    /// pair (one date alone is a creation date), the content, and a trailing
    /// run of `key:value` tags. A date whose digits name no calendar day is
    /// left as part of the content.
    #[verifier::rlimit(60)]
    pub fn from_todotxt(todo: String) -> (r: Result<Task, String>)
        ensures
            r is Ok,
            parses_to(todo, r.unwrap()),
    {
        let mut task = Task::empty();
        let s = todo.as_str();
        let b = s.as_bytes();
        let ghost bb = str_bytes(todo);
        proof {
            assert(b@ == bb);
        }
        let n = b.len();
        let mut off: usize = 0;
        // the completion mark
        if n >= 2 && b[0] == 120 && b[1] == 32 {
            task.completion = true;
            off = 2;
        }
        let ghost b1 = after_completion_b(bb);
        proof {
            assert(bb.skip(off as int) =~= b1);
        }
        // the priority mark
        proof {
            assert forall|i: int| 0 <= i < n - off implies b1[i] == bb[off + i] by {}
        }
        if n - off >= 4 && b[off] == 40 && 65 <= b[off + 1] && b[off + 1] <= 90 && b[off + 2]
            == 41 && b[off + 3] == 32 {
            task.priority = Some(b[off + 1] as char);
            off = off + 4;
        }
        let ghost b2 = after_priority_b(b1);
        proof {
            assert(bb.skip(off as int) =~= b2);
        }
        // at most two leading dates; the later one is the creation date
        let mut date1: Option<Date> = None;
        let mut date2: Option<Date> = None;
        match read_date_at(b, off) {
            Some((y, m, d)) => {
                if off + 10 < n && b[off + 10] == 32 {
                    proof {
                        assert(b2[10] == bb[off + 10]);
                        assert(b2.len() >= 11);
                    }
                    date1 = Date::new(y, m, d);
                }
            },
            None => {},
        }
        proof {
            assert(date1 is Some <==> lead_date_b(b2) is Some);
            if lead_date_b(b2) is Some {
                assert(date_is(date1, lead_date_b(b2).unwrap()));
            }
        }
        if date1.is_some() {
            off = off + 11;
            proof {
                assert(bb.skip(off as int) =~= b2.skip(11));
            }
            match read_date_at(b, off) {
                Some((y, m, d)) => {
                    if off + 10 < n && b[off + 10] == 32 {
                        proof {
                            assert(b2.skip(11)[10] == bb[off + 10]);
                            assert(b2.skip(11).len() >= 11);
                        }
                        date2 = Date::new(y, m, d);
                    }
                },
                None => {},
            }
            proof {
                assert(date2 is Some <==> lead_date_b(b2.skip(11)) is Some);
                if lead_date_b(b2.skip(11)) is Some {
                    assert(date_is(date2, lead_date_b(b2.skip(11)).unwrap()));
                }
            }
            if date2.is_some() {
                off = off + 11;
            }
        }
        match (date1, date2) {
            (Some(d1), Some(d2)) => {
                task.completion_date = Some(d1);
                task.creation_date = Some(d2);
            },
            (Some(d1), None) => {
                task.creation_date = Some(d1);
            },
            _ => {},
        }
        // slice off the consumed prefixes: content and tags stand in the rest
        proof {
            vstd::utf8::encode_utf8_valid_utf8(s@);
            if off > 0 {
                assert(bb[off - 1] == 32);
                crate::order::lemma_boundary_after_ascii(bb, off - 1);
            } else {
                vstd::utf8::is_char_boundary_start_end_of_seq(bb);
            }
        }
        let (_, region) = s.split_at(off);
        let ghost rb = region.spec_bytes();
        proof {
            assert(rb =~= bb.subrange(off as int, n as int));
            assert(rb =~= bb.skip(off as int));
            assert(rb =~= rest_after_dates(b2));
            vstd::utf8::encode_utf8_valid_utf8(region@);
        }
        let cand = scan_tag_run(region.as_bytes());
        // the content is what stands before the trailing tag run
        proof {
            crate::order::lemma_ascii_is_boundary(rb, cand as int);
        }
        let (content_part, run_part) = region.split_at(cand);
        task.set_content(content_part.to_owned());
        task.custom_tags = collect_tag_pairs(run_part);
        task.read_due_tag();
        Ok(task)
    }

    /// Reads the due date back out of the collected custom tags: the last
    /// `due` pair wins, and a value naming no calendar date leaves the task
    /// without a due date.
    fn read_due_tag(&mut self)
        ensures
            due_matches(final(self).due(), final(self).custom()),
            final(self).content@ == old(self).content@,
            final(self).completion == old(self).completion,
            final(self).completion_date == old(self).completion_date,
            final(self).creation_date == old(self).creation_date,
            final(self).priority == old(self).priority,
            final(self).ptags() == old(self).ptags(),
            final(self).ctags() == old(self).ctags(),
            final(self).custom() == old(self).custom(),
    {
        proof {
            reveal_strlit("due");
        }
        let key = String::from_str("due");
        self.duedate = None;
        let n = self.custom_tags.len();
        let mut i: usize = n;
        let ghost pairs = self.custom_tags@;
        proof {
            assert(pairs.take(pairs.len() as int) =~= pairs);
        }
        loop
            invariant
                self.custom_tags@ == pairs,
                self.duedate is None,
                i <= pairs.len(),
                key@ == due_key_text(),
                last_due_value(pairs) == last_due_value(pairs.take(i as int)),
            ensures
                self.custom_tags@ == pairs,
                self.duedate is None,
                i <= pairs.len(),
                i > 0 ==> pairs[i - 1].0@ == due_key_text() && last_due_value(pairs) == Some(
                    pairs[i - 1].1@,
                ),
                i == 0 ==> last_due_value(pairs) is None,
            decreases i,
        {
            if i == 0 {
                proof {
                    assert(pairs.take(0) =~= Seq::<(String, String)>::empty());
                }
                break ;
            }
            proof {
                assert(pairs.take(i as int).drop_last() =~= pairs.take(i - 1));
                assert(pairs.take(i as int).last() == pairs[i - 1]);
            }
            if self.custom_tags[i - 1].0.eq(&key) {
                break ;
            }
            i = i - 1;
        }
        if i > 0 {
            let parsed = crate::dates::parse_ymd(self.custom_tags[i - 1].1.as_str());
            self.duedate = parsed;
        }
    }

    /// A many-line summary of the task for a human reader: content, status,
    /// priority, dates and tags, each on its own labelled line.
    #[verifier::rlimit(60)]
    pub fn recap_str(&self) -> (r: String)
        ensures
            r@ == recap_chars(*self),
    {
        let mut s = String::new();
        s.append("Task : ");
        s.append(self.content.as_str());
        let ghost c0 = "Task : "@ + self.text();
        proof {
            assert(s@ =~= c0);
        }
        if self.completion {
            s.append("\nStatus : Done");
            if let Some(date) = &self.completion_date {
                s.append(" (");
                let d = date.format_ymd();
                s.append(d.as_str());
                s.append(")");
            }
        } else {
            s.append("\nStatus : To do");
        }
        let ghost c1 = c0 + recap_status(*self);
        proof {
            assert(s@ =~= c1);
        }
        if let Some(p) = self.priority {
            if let Some(letter) = upper_str(p) {
                s.append("\nPriority : ");
                s.append(letter);
            }
        }
        let ghost c2 = c1 + recap_prio(*self);
        proof {
            assert(s@ =~= c2);
        }
        if let Some(date) = &self.creation_date {
            s.append("\nCreated on : ");
            let d = date.format_ymd();
            s.append(d.as_str());
        }
        let ghost c3 = c2 + recap_created(*self);
        proof {
            assert(s@ =~= c3);
        }
        if let Some(date) = &self.duedate {
            s.append("\nDue date : ");
            let d = date.format_ymd();
            s.append(d.as_str());
        }
        let ghost c4 = c3 + recap_due(*self);
        proof {
            assert(s@ =~= c4);
        }
        if self.context_tags.len() > 0 {
            s.append("\nContext tags : ");
            append_joined(&mut s, &self.context_tags);
        }
        let ghost c5 = c4 + recap_ctx(*self);
        proof {
            assert(s@ =~= c5);
        }
        if self.project_tags.len() > 0 {
            s.append("\nProject tags : ");
            append_joined(&mut s, &self.project_tags);
        }
        proof {
            assert(s@ =~= c5 + recap_proj(*self));
            assert(recap_chars(*self) =~= c5 + recap_proj(*self));
        }
        s
    }

    /// Compares two tasks under the chosen key.
    pub fn comp(&self, compare: &Task, sort: &SortTaskBy) -> (r: core::cmp::Ordering)
        ensures
            r == task_cmp(*self, *compare, *sort),
    {
        match sort {
            SortTaskBy::Content => self.comp_content(compare),
            SortTaskBy::CreationDate => self.comp_creation_date(compare),
            SortTaskBy::Priority => self.comp_priority(compare),
        }
    }

    /// Orders by priority letter, tasks with a priority first, equal
    /// priorities falling back to the content.
    pub fn comp_priority(&self, compare: &Task) -> (r: core::cmp::Ordering)
        ensures
            r == priority_cmp(*self, *compare),
    {
        match (self.priority, compare.priority) {
            (Some(p1), Some(p2)) => {
                if p1 == p2 {
                    self.comp_content(compare)
                } else if p1 < p2 {
                    core::cmp::Ordering::Less
                } else {
                    core::cmp::Ordering::Greater
                }
            },
            (Some(_), None) => core::cmp::Ordering::Less,
            (None, Some(_)) => core::cmp::Ordering::Greater,
            (None, None) => self.comp_content(compare),
        }
    }

    /// Orders by creation date, tasks without a date first, equal dates
    /// falling back to the content.
    pub fn comp_creation_date(&self, compare: &Task) -> (r: core::cmp::Ordering)
        ensures
            r == creation_cmp(*self, *compare),
    {
        match (self.creation_date, compare.creation_date) {
            (Some(d1), Some(d2)) => {
                if d1 == d2 {
                    self.comp_content(compare)
                } else if d1.le(&d2) {
                    core::cmp::Ordering::Less
                } else {
                    core::cmp::Ordering::Greater
                }
            },
            (Some(_), None) => core::cmp::Ordering::Greater,
            (None, Some(_)) => core::cmp::Ordering::Less,
            (None, None) => self.comp_content(compare),
        }
    }

    /// Orders by the content's bytes, lexicographically.
    pub fn comp_content(&self, compare: &Task) -> (r: core::cmp::Ordering)
        ensures
            r == content_cmp(*self, *compare),
    {
        let a = self.content.as_str().as_bytes();
        let b = compare.content.as_str().as_bytes();
        let le1 = bytes_le(a, b);
        let le2 = bytes_le(b, a);
        proof {
            lemma_lex_le_total(str_bytes(self.content), str_bytes(compare.content));
        }
        if le1 && le2 {
            core::cmp::Ordering::Equal
        } else if le1 {
            core::cmp::Ordering::Less
        } else {
            core::cmp::Ordering::Greater
        }
    }
}

/// The content order of tasks.
pub open spec fn content_cmp(a: Task, b: Task) -> core::cmp::Ordering {
    cmp3_bytes(vstd::utf8::encode_utf8(a.text()), vstd::utf8::encode_utf8(b.text()))
}

/// The priority order of tasks: a priority beats none, letters compare as
/// characters, ties fall back to the content.
pub open spec fn priority_cmp(a: Task, b: Task) -> core::cmp::Ordering {
    match (a.prio(), b.prio()) {
        (Some(p1), Some(p2)) => {
            if p1 == p2 {
                content_cmp(a, b)
            } else if p1 < p2 {
                core::cmp::Ordering::Less
            } else {
                core::cmp::Ordering::Greater
            }
        },
        (Some(p1), None) => core::cmp::Ordering::Less,
        (None, Some(p2)) => core::cmp::Ordering::Greater,
        (None, None) => content_cmp(a, b),
    }
}

/// The creation-date order of tasks: dated tasks come after undated ones,
/// dates compare chronologically, ties fall back to the content.
pub open spec fn creation_cmp(a: Task, b: Task) -> core::cmp::Ordering {
    match (a.created(), b.created()) {
        (Some(d1), Some(d2)) => {
            if d1 == d2 {
                content_cmp(a, b)
            } else if d1.le_spec(d2) {
                core::cmp::Ordering::Less
            } else {
                core::cmp::Ordering::Greater
            }
        },
        (Some(d1), None) => core::cmp::Ordering::Greater,
        (None, Some(d2)) => core::cmp::Ordering::Less,
        (None, None) => content_cmp(a, b),
    }
}

/// The order a `SortTaskBy` stands for.
pub open spec fn task_cmp(a: Task, b: Task, sort: SortTaskBy) -> core::cmp::Ordering {
    match sort {
        SortTaskBy::Content => content_cmp(a, b),
        SortTaskBy::CreationDate => creation_cmp(a, b),
        SortTaskBy::Priority => priority_cmp(a, b),
    }
}

/// The key under which the due date is mirrored among the custom tags.
pub open spec fn due_key_text() -> Seq<char> {
    "due"@
}

/// A custom tag whose key is not the due key.
pub open spec fn not_due(p: (String, String)) -> bool {
    str_bytes(p.0) != vstd::utf8::encode_utf8(due_key_text())
}

/// Byte sequences each at or below the other under the lexicographic
/// order are equal.
pub proof fn lemma_lex_le_antisym(a: Seq<u8>, b: Seq<u8>)
    requires
        lex_le(a, b),
        lex_le(b, a),
    ensures
        a == b,
    decreases a.len(),
{
    if a.len() > 0 && b.len() > 0 && a[0] == b[0] {
        lemma_lex_le_antisym(a.skip(1), b.skip(1));
        assert(a =~= seq![a[0]] + a.skip(1));
        assert(b =~= seq![b[0]] + b.skip(1));
    } else {
        assert(a =~= b);
    }
}


/// The `(P) ` prefix a priority letter shows as; letters outside A through Z
/// are not shown.
pub open spec fn priority_prefix_chars(p: Option<char>) -> Seq<char> {
    match p {
        Some(c) => if 'A' <= c <= 'Z' {
            seq!['(', c, ')', ' ']
        } else {
            Seq::<char>::empty()
        },
        None => Seq::<char>::empty(),
    }
}

/// A date followed by one space, or nothing.
pub open spec fn date_sp_chars(d: Option<Date>) -> Seq<char> {
    match d {
        Some(d) => ymd_chars(d.y(), d.m(), d.d()) + seq![' '],
        None => Seq::<char>::empty(),
    }
}

/// The ` key:value` form of the custom tags, in order.
pub open spec fn custom_chars(s: Seq<(String, String)>) -> Seq<char>
    decreases s.len(),
{
    if s.len() == 0 {
        Seq::<char>::empty()
    } else {
        seq![' '] + s[0].0@ + seq![':'] + s[0].1@ + custom_chars(s.drop_first())
    }
}

/// `custom_chars` grows at the back, one entry at a time.
proof fn lemma_custom_chars_push(s: Seq<(String, String)>, x: (String, String))
    ensures
        custom_chars(s.push(x)) == custom_chars(s) + seq![' '] + x.0@ + seq![':'] + x.1@,
    decreases s.len(),
{
    if s.len() == 0 {
        assert(s.push(x)[0] == x);
        assert(s.push(x).drop_first() =~= s);
        assert(custom_chars(s.push(x)) == seq![' '] + s.push(x)[0].0@ + seq![':'] + s.push(
            x,
        )[0].1@ + custom_chars(s.push(x).drop_first()));
        assert(custom_chars(s) =~= Seq::<char>::empty());
        assert(custom_chars(s.push(x)) =~= custom_chars(s) + seq![' '] + x.0@ + seq![':']
            + x.1@);
    } else {
        assert(s.push(x).drop_first() =~= s.drop_first().push(x));
        lemma_custom_chars_push(s.drop_first(), x);
        assert(s.push(x)[0] == s[0]);
        assert(custom_chars(s.push(x)) == seq![' '] + s.push(x)[0].0@ + seq![':'] + s.push(
            x,
        )[0].1@ + custom_chars(s.push(x).drop_first()));
        assert(custom_chars(s.push(x)) =~= custom_chars(s) + seq![' '] + x.0@ + seq![':']
            + x.1@);
    }
}

/// The tag lists joined with a comma and a space.
pub open spec fn join_comma(tags: Seq<String>) -> Seq<char>
    decreases tags.len(),
{
    if tags.len() == 0 {
        Seq::<char>::empty()
    } else if tags.len() == 1 {
        tags[0]@
    } else {
        tags[0]@ + seq![',', ' '] + join_comma(tags.drop_first())
    }
}

/// One uppercase letter as text.
fn upper_str(c: char) -> (r: Option<&'static str>)
    ensures
        r is Some <==> 'A' <= c <= 'Z',
        r is Some ==> r.unwrap()@ =~= seq![c],
{
    proof {
        reveal_strlit("A");
        reveal_strlit("B");
        reveal_strlit("C");
        reveal_strlit("D");
        reveal_strlit("E");
        reveal_strlit("F");
        reveal_strlit("G");
        reveal_strlit("H");
        reveal_strlit("I");
        reveal_strlit("J");
        reveal_strlit("K");
        reveal_strlit("L");
        reveal_strlit("M");
        reveal_strlit("N");
        reveal_strlit("O");
        reveal_strlit("P");
        reveal_strlit("Q");
        reveal_strlit("R");
        reveal_strlit("S");
        reveal_strlit("T");
        reveal_strlit("U");
        reveal_strlit("V");
        reveal_strlit("W");
        reveal_strlit("X");
        reveal_strlit("Y");
        reveal_strlit("Z");
    }
    match c {
        'A' => Some("A"),
        'B' => Some("B"),
        'C' => Some("C"),
        'D' => Some("D"),
        'E' => Some("E"),
        'F' => Some("F"),
        'G' => Some("G"),
        'H' => Some("H"),
        'I' => Some("I"),
        'J' => Some("J"),
        'K' => Some("K"),
        'L' => Some("L"),
        'M' => Some("M"),
        'N' => Some("N"),
        'O' => Some("O"),
        'P' => Some("P"),
        'Q' => Some("Q"),
        'R' => Some("R"),
        'S' => Some("S"),
        'T' => Some("T"),
        'U' => Some("U"),
        'V' => Some("V"),
        'W' => Some("W"),
        'X' => Some("X"),
        'Y' => Some("Y"),
        'Z' => Some("Z"),
        _ => None,
    }
}


/// The text marks the task done: it opens with `x` and a space.
pub open spec fn completion_b(b: Seq<u8>) -> bool {
    b.len() >= 2 && b[0] == 120 && b[1] == 32
}

/// The text with the completion mark taken off.
pub open spec fn after_completion_b(b: Seq<u8>) -> Seq<u8> {
    if completion_b(b) {
        b.skip(2)
    } else {
        b
    }
}

/// The priority letter announced by a leading `(P) `.
pub open spec fn priority_b(b: Seq<u8>) -> Option<char> {
    if b.len() >= 4 && b[0] == 40 && 65 <= b[1] <= 90 && b[2] == 41 && b[3] == 32 {
        Some(b[1] as char)
    } else {
        None
    }
}

/// The text with the priority mark taken off.
pub open spec fn after_priority_b(b: Seq<u8>) -> Seq<u8> {
    if priority_b(b) is Some {
        b.skip(4)
    } else {
        b
    }
}

/// A leading date: ten date-shaped bytes naming a valid calendar date,
/// followed by a space.
pub open spec fn lead_date_b(b: Seq<u8>) -> Option<(int, int, int)> {
    match date_bytes(b) {
        Some(t) => if valid_ymd(t.0, t.1, t.2) && b.len() >= 11 && b[10] == 32 {
            Some(t)
        } else {
            None
        },
        None => None,
    }
}

/// The optional date `d` is present and holds the triple `t`.
pub open spec fn date_is(d: Option<Date>, t: (int, int, int)) -> bool {
    d is Some && d.unwrap().y() == t.0 && d.unwrap().m() == t.1 && d.unwrap().d() == t.2
}

/// The value of the last `due` pair among the custom tags, if any: among
/// duplicate keys, the latest entry is the one that counts.
pub open spec fn last_due_value(pairs: Seq<(String, String)>) -> Option<Seq<char>>
    decreases pairs.len(),
{
    if pairs.len() == 0 {
        None
    } else if pairs.last().0@ == due_key_text() {
        Some(pairs.last().1@)
    } else {
        last_due_value(pairs.drop_last())
    }
}

/// The due date is exactly what the custom tags say: the last `due` pair's
/// value when it names a calendar date, nothing otherwise.
pub open spec fn due_matches(d: Option<Date>, pairs: Seq<(String, String)>) -> bool {
    match last_due_value(pairs) {
        None => d is None,
        Some(v) => match crate::dates::parse_ymd_chars(v) {
            Some(tr) => if 1 <= tr.1 <= 12 && 1 <= tr.2 <= crate::dates::days_in_month(
                tr.1,
                tr.0,
            ) {
                date_is(d, tr)
            } else {
                d is None
            },
            None => d is None,
        },
    }
}


/// The end of the word standing at `i`: the first position at or after `i`
/// holding a space, or the end of the text.
pub open spec fn token_end(b: Seq<u8>, i: int) -> int
    decreases b.len() - i when 0 <= i <= b.len()
{
    if i >= b.len() || b[i] == 32 {
        i
    } else {
        token_end(b, i + 1)
    }
}

/// `token_end` stays within the text and moves past a non-space position.
pub proof fn lemma_token_end_bounds(b: Seq<u8>, i: int)
    requires
        0 <= i <= b.len(),
    ensures
        i <= token_end(b, i) <= b.len(),
        i < b.len() && b[i] != 32 ==> token_end(b, i) > i,
    decreases b.len() - i,
{
    if i < b.len() && b[i] != 32 {
        lemma_token_end_bounds(b, i + 1);
    }
}

/// How many colon bytes positions `i` to `j` of `b` hold.
pub open spec fn count_colons(b: Seq<u8>, i: int, j: int) -> int
    decreases j - i when i <= j
{
    if i >= j {
        0
    } else {
        (if b[i] == 58 {
            1int
        } else {
            0int
        }) + count_colons(b, i + 1, j)
    }
}

/// Counting one more position adds that position's colon, if any.
pub proof fn lemma_count_colons_extend(b: Seq<u8>, i: int, k: int)
    requires
        i <= k,
    ensures
        count_colons(b, i, k + 1) == count_colons(b, i, k) + (if b[k] == 58 {
            1int
        } else {
            0int
        }),
    decreases k - i,
{
    if i < k {
        lemma_count_colons_extend(b, i + 1, k);
    } else {
        assert(count_colons(b, k + 1, k + 1) == 0);
        assert(count_colons(b, k, k) == 0);
    }
}

/// The position of the first colon in positions `i` to `j` of `b`, or `j`.
pub open spec fn first_colon(b: Seq<u8>, i: int, j: int) -> int
    decreases j - i when i <= j
{
    if i >= j {
        j
    } else if b[i] == 58 {
        i
    } else {
        first_colon(b, i + 1, j)
    }
}

/// Widening the right end moves the first colon only when none was found.
pub proof fn lemma_first_colon_extend(b: Seq<u8>, i: int, k: int)
    requires
        i <= k,
    ensures
        first_colon(b, i, k + 1) == if first_colon(b, i, k) < k {
            first_colon(b, i, k)
        } else if b[k] == 58 {
            k
        } else {
            k + 1
        },
        i <= first_colon(b, i, k) <= k,
    decreases k - i,
{
    if i < k {
        lemma_first_colon_extend(b, i + 1, k);
    } else {
        assert(first_colon(b, k + 1, k + 1) == k + 1);
        assert(first_colon(b, k, k) == k);
    }
}

/// A found first colon is a colon.
pub proof fn lemma_first_colon_is_colon(b: Seq<u8>, i: int, j: int)
    requires
        0 <= i <= j <= b.len(),
        first_colon(b, i, j) < j,
    ensures
        i <= first_colon(b, i, j),
        b[first_colon(b, i, j)] == 58,
    decreases j - i,
{
    if i < j && b[i] != 58 {
        lemma_first_colon_is_colon(b, i + 1, j);
    }
}

/// The word at positions `ts` to `j` is a key-and-value tag: exactly one
/// colon, with text on both sides of it.
pub open spec fn tag_token(b: Seq<u8>, ts: int, j: int) -> bool {
    let c = first_colon(b, ts, j);
    count_colons(b, ts, j) == 1 && c > ts && c + 1 < j
}

/// Where the content ends and the trailing tag run begins: the text is
/// walked word by word, and a chain is open while every word is a tag led
/// by exactly one space; the start of the chain still open at the end wins.
pub open spec fn scan_tags(b: Seq<u8>, i: int, cand: int, last_end: int) -> int
    decreases b.len() - i when 0 <= i <= b.len()
    via scan_tags_decreases
{
    if i >= b.len() {
        cand
    } else if b[i] == 32 {
        scan_tags(b, i + 1, cand, last_end)
    } else {
        let j = token_end(b, i);
        if tag_token(b, i, j) && i > 0 && b[i - 1] == 32 {
            if cand == b.len() || i - last_end != 1 {
                scan_tags(b, j, i - 1, j)
            } else {
                scan_tags(b, j, cand, j)
            }
        } else {
            scan_tags(b, j, b.len() as int, j)
        }
    }
}

#[via_fn]
proof fn scan_tags_decreases(b: Seq<u8>, i: int, cand: int, last_end: int) {
    if 0 <= i < b.len() && b[i] != 32 {
        lemma_token_end_bounds(b, i);
    }
}

/// Where the content of the task text `b` ends: everything after it is the
/// trailing tag run.
pub open spec fn content_end(b: Seq<u8>) -> int {
    scan_tags(b, 0, b.len() as int, 0)
}

/// The key-and-value pairs a trailing tag run spells, in reading order:
/// blocks of one space and one tag word, split at the colon.
pub open spec fn tag_pairs(b: Seq<u8>) -> Seq<(Seq<u8>, Seq<u8>)>
    decreases b.len()
    via tag_pairs_decreases
{
    if b.len() == 0 || b[0] != 32 {
        Seq::empty()
    } else {
        let j = token_end(b, 1);
        let c = first_colon(b, 1, j);
        if j > 1 && tag_token(b, 1, j) {
            seq![(b.subrange(1, c), b.subrange(c + 1, j))] + tag_pairs(b.skip(j))
        } else {
            Seq::empty()
        }
    }
}

#[via_fn]
proof fn tag_pairs_decreases(b: Seq<u8>) {
    if b.len() > 0 && b[0] == 32 && 1 <= b.len() {
        lemma_token_end_bounds(b, 1);
    }
}

/// The byte form of collected key-and-value pairs.
pub open spec fn pairs_bytes(pairs: Seq<(String, String)>) -> Seq<(Seq<u8>, Seq<u8>)> {
    pairs.map_values(|p: (String, String)| (str_bytes(p.0), str_bytes(p.1)))
}

/// The text standing after the optional leading dates.
pub open spec fn rest_after_dates(b2: Seq<u8>) -> Seq<u8> {
    match lead_date_b(b2) {
        None => b2,
        Some(t1) => match lead_date_b(b2.skip(11)) {
            None => b2.skip(11),
            Some(t2) => b2.skip(11).skip(11),
        },
    }
}

/// Word ends keep their place under dropping a prefix.
pub proof fn lemma_token_end_shift(b: Seq<u8>, k: int, i: int)
    requires
        0 <= k,
        0 <= i,
        k + i <= b.len(),
    ensures
        token_end(b.skip(k), i) == token_end(b, k + i) - k,
    decreases b.len() - (k + i),
{
    assert(b.skip(k).len() == b.len() - k);
    if k + i < b.len() {
        assert(b.skip(k)[i] == b[k + i]);
        if b[k + i] != 32 {
            lemma_token_end_shift(b, k, i + 1);
        }
    }
}

/// Colon counts keep their place under dropping a prefix.
pub proof fn lemma_count_colons_shift(b: Seq<u8>, k: int, i: int, j: int)
    requires
        0 <= k,
        0 <= i <= j,
        k + j <= b.len(),
    ensures
        count_colons(b.skip(k), i, j) == count_colons(b, k + i, k + j),
    decreases j - i,
{
    if i < j {
        assert(b.skip(k)[i] == b[k + i]);
        lemma_count_colons_shift(b, k, i + 1, j);
    }
}

/// The first colon keeps its place under dropping a prefix.
pub proof fn lemma_first_colon_shift(b: Seq<u8>, k: int, i: int, j: int)
    requires
        0 <= k,
        0 <= i <= j,
        k + j <= b.len(),
    ensures
        first_colon(b.skip(k), i, j) == first_colon(b, k + i, k + j) - k,
    decreases j - i,
{
    if i < j {
        assert(b.skip(k)[i] == b[k + i]);
        if b[k + i] != 58 {
            lemma_first_colon_shift(b, k, i + 1, j);
        }
    }
}

/// What reading a task-list line pins down: the completion mark, the
/// priority, the leading dates, the exact content and the exact trailing
/// key-and-value pairs, the due date read back from the collected `due`
/// tag, and the tag lists as exactly the content's marked words, sorted.
pub open spec fn parses_to(s: String, t: Task) -> bool {
    let b = str_bytes(s);
    let b1 = after_completion_b(b);
    let b2 = after_priority_b(b1);
    &&& t.done() == completion_b(b)
    &&& t.prio() == priority_b(b1)
    &&& match lead_date_b(b2) {
        None => t.completed_on() is None && t.created() is None,
        Some(t1) => match lead_date_b(b2.skip(11)) {
            None => t.completed_on() is None && date_is(t.created(), t1),
            Some(t2) => date_is(t.completed_on(), t1) && date_is(t.created(), t2),
        },
    }
    &&& {
        let rest = rest_after_dates(b2);
        &&& vstd::utf8::encode_utf8(t.text()) == rest.take(content_end(rest))
        &&& pairs_bytes(t.custom()) == tag_pairs(rest.skip(content_end(rest)))
    }
    &&& due_matches(t.due(), t.custom())
    &&& sorted_tags(t.ptags())
    &&& sorted_tags(t.ctags())
    &&& forall|x: Seq<u8>| #[trigger]
        has_text(t.ptags(), x) <==> is_marked_word(vstd::utf8::encode_utf8(t.text()), 43, x)
    &&& forall|x: Seq<u8>| #[trigger]
        has_text(t.ctags(), x) <==> is_marked_word(vstd::utf8::encode_utf8(t.text()), 64, x)
}


/// The status line of the summary.
pub open spec fn recap_status(t: Task) -> Seq<char> {
    if t.done() {
        "\nStatus : Done"@ + (match t.completed_on() {
            Some(d) => " ("@ + ymd_chars(d.y(), d.m(), d.d()) + ")"@,
            None => Seq::<char>::empty(),
        })
    } else {
        "\nStatus : To do"@
    }
}

/// The priority line of the summary.
pub open spec fn recap_prio(t: Task) -> Seq<char> {
    match t.prio() {
        Some(p) => if 'A' <= p <= 'Z' {
            "\nPriority : "@ + seq![p]
        } else {
            Seq::<char>::empty()
        },
        None => Seq::<char>::empty(),
    }
}

/// The creation-date line of the summary.
pub open spec fn recap_created(t: Task) -> Seq<char> {
    match t.created() {
        Some(d) => "\nCreated on : "@ + ymd_chars(d.y(), d.m(), d.d()),
        None => Seq::<char>::empty(),
    }
}

/// The due-date line of the summary.
pub open spec fn recap_due(t: Task) -> Seq<char> {
    match t.due() {
        Some(d) => "\nDue date : "@ + ymd_chars(d.y(), d.m(), d.d()),
        None => Seq::<char>::empty(),
    }
}

/// The context-tag line of the summary.
pub open spec fn recap_ctx(t: Task) -> Seq<char> {
    if t.ctags().len() > 0 {
        "\nContext tags : "@ + join_comma(t.ctags())
    } else {
        Seq::<char>::empty()
    }
}

/// The project-tag line of the summary.
pub open spec fn recap_proj(t: Task) -> Seq<char> {
    if t.ptags().len() > 0 {
        "\nProject tags : "@ + join_comma(t.ptags())
    } else {
        Seq::<char>::empty()
    }
}

/// The labelled many-line summary of a task.
pub open spec fn recap_chars(t: Task) -> Seq<char> {
    "Task : "@ + t.text() + recap_status(t) + recap_prio(t) + recap_created(t) + recap_due(t)
        + recap_ctx(t) + recap_proj(t)
}

/// `join_comma` grows at the back, one tag at a time.
proof fn lemma_join_push(s: Seq<String>, x: String)
    ensures
        join_comma(s.push(x)) == if s.len() == 0 {
            x@
        } else {
            join_comma(s) + seq![',', ' '] + x@
        },
    decreases s.len(),
{
    if s.len() == 0 {
        assert(s.push(x)[0] == x);
        assert(join_comma(s.push(x)) =~= x@);
    } else if s.len() == 1 {
        assert(s.push(x)[0] == s[0]);
        assert(s.push(x).drop_first() =~= s.drop_first().push(x));
        lemma_join_push(s.drop_first(), x);
        assert(join_comma(s.push(x)) =~= join_comma(s) + seq![',', ' '] + x@);
    } else {
        assert(s.push(x)[0] == s[0]);
        assert(s.push(x).drop_first() =~= s.drop_first().push(x));
        lemma_join_push(s.drop_first(), x);
        assert(join_comma(s.push(x)) =~= join_comma(s) + seq![',', ' '] + x@);
    }
}

/// Appends the tags joined with a comma and a space.
fn append_joined(s: &mut String, tags: &Vec<String>)
    ensures
        final(s)@ == old(s)@ + join_comma(tags@),
{
    proof {
        reveal_strlit(", ");
    }
    let ghost head = s@;
    let mut i: usize = 0;
    while i < tags.len()
        invariant
            i <= tags@.len(),
            s@ == head + join_comma(tags@.take(i as int)),
            ", "@ =~= seq![',', ' '],
        decreases tags@.len() - i,
    {
        if i > 0 {
            s.append(", ");
        }
        s.append(tags[i].as_str());
        i = i + 1;
        proof {
            assert(tags@.take(i as int) =~= tags@.take(i - 1).push(tags@[i - 1]));
            lemma_join_push(tags@.take(i - 1), tags@[i - 1]);
            assert(s@ =~= head + join_comma(tags@.take(i as int)));
        }
    }
    proof {
        assert(tags@.take(tags@.len() as int) =~= tags@);
        assert(s@ =~= head + join_comma(tags@));
    }
}

/// Relies on `chrono::Local::now` together with `chrono::Datelike`: the
/// clock reads as a real calendar date, so the month lies in 1 through 12
/// and the day is one the month has in that year.
#[verifier::external_body]
fn today_ymd() -> (r: (i32, u32, u32))
    ensures
        1 <= r.1 <= 12,
        1 <= r.2 <= crate::dates::days_in_month(r.1 as int, r.0 as int),
{
    let now = chrono::Local::now();
    (
        chrono::Datelike::year(&now),
        chrono::Datelike::month(&now),
        chrono::Datelike::day(&now),
    )
}

/// Collects the words of `s` that begin with the marker byte at a word
/// boundary, without the marker itself: exactly the marker-led words of the
/// text, in reading order.
fn collect_marked_words(s: &str, marker: u8) -> (r: Vec<String>)
    requires
        32 < marker < 128,
    ensures
        forall|x: Seq<u8>| #[trigger]
            has_text(r@, x) <==> is_marked_word(s.spec_bytes(), marker, x),
{
    let ghost bb = s.spec_bytes();
    proof {
        vstd::utf8::encode_utf8_valid_utf8(s@);
    }
    let b = s.as_bytes();
    let n = b.len();
    let mut words: Vec<String> = Vec::new();
    let mut i: usize = 0;
    while i < n
        invariant
            i <= n,
            n == b@.len(),
            b@ == bb,
            bb == s.spec_bytes(),
            32 < marker < 128,
            vstd::utf8::valid_utf8(bb),
            forall|x: Seq<u8>| #[trigger]
                has_text(words@, x) <==> marked_word_before(bb, marker, x, i as int),
        decreases n - i,
    {
        if b[i] == marker && (i == 0 || b[i - 1] == 32) {
            let mut j = i + 1;
            while j < n && b[j] != 32
                invariant
                    i + 1 <= j <= n,
                    n == b@.len(),
                    b@ == bb,
                    forall|p: int| i < p < j ==> bb[p] != 32,
                decreases n - j,
            {
                j = j + 1;
            }
            if j > i + 1 {
                proof {
                    lemma_boundary_after_ascii(bb, i as int);
                }
                let (_, tail) = s.split_at(i + 1);
                proof {
                    assert(tail.spec_bytes() =~= bb.subrange(i + 1, n as int));
                    vstd::utf8::encode_utf8_valid_utf8(tail@);
                    lemma_ascii_is_boundary(tail.spec_bytes(), j - (i + 1));
                }
                let (word, _) = tail.split_at(j - (i + 1));
                let w = word.to_owned();
                let ghost prewords = words@;
                words.push(w);
                proof {
                    assert(str_bytes(w) =~= bb.subrange(i + 1, j as int));
                    assert(marked_span(bb, marker, i as int, j as int));
                    assert forall|x: Seq<u8>| #[trigger]
                        has_text(words@, x) <==> marked_word_before(bb, marker, x, j as int) by {
                        if has_text(words@, x) {
                            let q = choose|q: int|
                                0 <= q < words@.len() && str_bytes(#[trigger] words@[q]) == x;
                            if q < prewords.len() {
                                assert(str_bytes(prewords[q]) == x);
                                assert(has_text(prewords, x));
                                assert(marked_word_before(bb, marker, x, i as int));
                                let (i0, j0) = choose|i0: int, j0: int|
                                    #![trigger marked_span(bb, marker, i0, j0)]
                                    marked_span(bb, marker, i0, j0) && i0 < i && x
                                        == bb.subrange(i0 + 1, j0);
                                assert(marked_span(bb, marker, i0, j0));
                            } else {
                                assert(x == str_bytes(w));
                            }
                        }
                        if marked_word_before(bb, marker, x, j as int) {
                            let (i0, j0) = choose|i0: int, j0: int|
                                #![trigger marked_span(bb, marker, i0, j0)]
                                marked_span(bb, marker, i0, j0) && i0 < j && x == bb.subrange(
                                    i0 + 1,
                                    j0,
                                );
                            if i0 < i {
                                assert(has_text(prewords, x));
                                let q = choose|q: int|
                                    0 <= q < prewords.len() && str_bytes(
                                        #[trigger] prewords[q],
                                    ) == x;
                                assert(str_bytes(words@[q]) == x);
                            } else if i0 == i {
                                // the word just collected: its end is the
                                // next space, which pins j0 to j
                                if j0 < j {
                                    assert(bb[j0] != 32);
                                } else if j0 > j {
                                    assert(j < n && bb[j as int] == 32);
                                    assert(bb[j as int] != 32);
                                }
                                assert(j0 == j);
                                assert(str_bytes(words@[words@.len() - 1]) == x);
                            } else {
                                // a word cannot start inside this word
                                assert(bb[i0 - 1] != 32);
                                assert(false);
                            }
                        }
                    }
                }
            } else {
                proof {
                    assert forall|x: Seq<u8>| #[trigger]
                        has_text(words@, x) <==> marked_word_before(bb, marker, x, j as int) by {
                        if marked_word_before(bb, marker, x, j as int) {
                            let (i0, j0) = choose|i0: int, j0: int|
                                #![trigger marked_span(bb, marker, i0, j0)]
                                marked_span(bb, marker, i0, j0) && i0 < j && x == bb.subrange(
                                    i0 + 1,
                                    j0,
                                );
                            if i0 == i {
                                // the marker stands alone: a space or the
                                // end follows at once, so no word starts here
                                assert(i0 + 1 < j0);
                                assert(bb[i0 + 1] != 32);
                            }
                            assert(i0 < i);
                        }
                    }
                }
            }
            i = j;
        } else {
            proof {
                assert forall|x: Seq<u8>| #[trigger]
                    has_text(words@, x) <==> marked_word_before(bb, marker, x, i + 1) by {
                    if marked_word_before(bb, marker, x, i + 1) {
                        let (i0, j0) = choose|i0: int, j0: int|
                            #![trigger marked_span(bb, marker, i0, j0)]
                            marked_span(bb, marker, i0, j0) && i0 < i + 1 && x == bb.subrange(
                                i0 + 1,
                                j0,
                            );
                        assert(i0 < i);
                    }
                }
            }
            i = i + 1;
        }
    }
    proof {
        assert forall|x: Seq<u8>| #[trigger]
            has_text(words@, x) <==> is_marked_word(bb, marker, x) by {
            if has_text(words@, x) {
                let (i0, j0) = choose|i0: int, j0: int|
                    #![trigger marked_span(bb, marker, i0, j0)]
                    marked_span(bb, marker, i0, j0) && i0 < i && x == bb.subrange(i0 + 1, j0);
                assert(marked_span(bb, marker, i0, j0));
            }
            if is_marked_word(bb, marker, x) {
                let (i0, j0) = choose|i0: int, j0: int|
                    #![trigger marked_span(bb, marker, i0, j0)]
                    marked_span(bb, marker, i0, j0) && x == bb.subrange(i0 + 1, j0);
                assert(i0 < i);
            }
        }
    }
    words
}

/// Sorts strings by their bytes and drops duplicates: the result is strictly
/// sorted, and it holds exactly the texts the input held.
fn sort_dedup(words: Vec<String>) -> (r: Vec<String>)
    ensures
        sorted_tags(r@),
        forall|x: Seq<u8>| #[trigger] has_text(r@, x) <==> has_text(words@, x),
{
    let mut out: Vec<String> = Vec::new();
    let mut i: usize = 0;
    while i < words.len()
        invariant
            i <= words@.len(),
            sorted_tags(out@),
            forall|x: Seq<u8>| #[trigger]
                has_text(out@, x) <==> has_text(words@.take(i as int), x),
        decreases words@.len() - i,
    {
        let w = words[i].clone();
        let ghost pre = out@;
        insert_sorted(&mut out, w);
        i = i + 1;
        proof {
            assert forall|x: Seq<u8>| #[trigger]
                has_text(out@, x) <==> has_text(words@.take(i as int), x) by {
                assert(words@.take(i as int) =~= words@.take(i - 1).push(words@[i - 1]));
                if has_text(words@.take(i as int), x) {
                    let q = choose|q: int|
                        0 <= q < words@.take(i as int).len() && str_bytes(
                            #[trigger] words@.take(i as int)[q],
                        ) == x;
                    if q < i - 1 {
                        assert(has_text(words@.take(i - 1), x));
                    } else {
                        assert(str_bytes(words@[i - 1]) == x);
                        assert(x == str_bytes(w));
                    }
                }
                if has_text(words@.take(i - 1), x) {
                    let q = choose|q: int|
                        0 <= q < words@.take(i - 1).len() && str_bytes(
                            #[trigger] words@.take(i - 1)[q],
                        ) == x;
                    assert(words@.take(i as int)[q] == words@.take(i - 1)[q]);
                }
                if x == str_bytes(w) {
                    assert(words@.take(i as int)[i - 1] == words@[i - 1]);
                }
            }
        }
    }
    proof {
        assert(words@.take(words@.len() as int) =~= words@);
    }
    out
}

/// Inserts one string into a strictly sorted list, keeping it sorted; a
/// string already present under the byte order is dropped.
fn insert_sorted(out: &mut Vec<String>, w: String)
    requires
        sorted_tags(old(out)@),
    ensures
        sorted_tags(final(out)@),
        forall|x: Seq<u8>| #[trigger]
            has_text(final(out)@, x) <==> has_text(old(out)@, x) || x == str_bytes(w),
{
    let ghost wb = str_bytes(w);
    let mut i: usize = 0;
    loop
        invariant
            *out == *old(out),
            sorted_tags(out@),
            wb == str_bytes(w),
            i <= out@.len(),
            forall|p: int|
                0 <= p < i ==> lex_le(str_bytes(#[trigger] out@[p]), wb) && !lex_le(
                    wb,
                    str_bytes(out@[p]),
                ),
        ensures
            *out == *old(out),
            i <= out@.len(),
            forall|p: int|
                0 <= p < i ==> lex_le(str_bytes(#[trigger] out@[p]), wb) && !lex_le(
                    wb,
                    str_bytes(out@[p]),
                ),
            i < out@.len() ==> lex_le(wb, str_bytes(out@[i as int])) && !lex_le(
                str_bytes(out@[i as int]),
                wb,
            ),
        decreases out@.len() - i,
    {
        if i == out.len() {
            break ;
        }
        let le1 = bytes_le(out[i].as_str().as_bytes(), w.as_str().as_bytes());
        let le2 = bytes_le(w.as_str().as_bytes(), out[i].as_str().as_bytes());
        if le1 && le2 {
            // already present: duplicates collapse
            proof {
                lemma_lex_le_antisym(str_bytes(out@[i as int]), wb);
                assert forall|x: Seq<u8>|
                    has_text(out@, x) || x == wb implies #[trigger] has_text(out@, x) by {
                    if x == wb {
                        assert(str_bytes(out@[i as int]) == x);
                    }
                }
            }
            return ;
        }
        if !le1 {
            proof {
                lemma_lex_le_total(str_bytes(out@[i as int]), wb);
            }
            break ;
        }
        i = i + 1;
    }
    let ghost pre = out@;
    out.insert(i, w);
    proof {
        assert(out@ =~= pre.insert(i as int, w));
        assert forall|p: int, q: int|
            #![trigger out@[p], out@[q]]
            0 <= p < q < out@.len() implies lex_le(str_bytes(out@[p]), str_bytes(out@[q]))
            && !lex_le(str_bytes(out@[q]), str_bytes(out@[p])) by {
            let ii = i as int;
            if p == ii {
                if q == ii + 1 {
                    assert(out@[q] == pre[ii]);
                } else {
                    assert(out@[q] == pre[q - 1]);
                    lemma_lex_le_trans(wb, str_bytes(pre[ii]), str_bytes(pre[q - 1]));
                    if lex_le(str_bytes(pre[q - 1]), wb) {
                        lemma_lex_le_trans(str_bytes(pre[q - 1]), wb, str_bytes(pre[ii]));
                    }
                }
            } else if q == ii {
                assert(out@[p] == pre[p]);
            } else if p < ii && q > ii {
                assert(out@[p] == pre[p]);
                assert(out@[q] == pre[q - 1]);
                if p == q - 1 {
                    assert(lex_le(str_bytes(pre[p]), wb) && !lex_le(wb, str_bytes(pre[p])));
                }
            }
        }
        assert forall|x: Seq<u8>| #[trigger]
            has_text(out@, x) implies has_text(pre, x) || x == wb by {
            let p = choose|p: int| 0 <= p < out@.len() && str_bytes(#[trigger] out@[p]) == x;
            if p != i {
                let pp = if p < i {
                    p
                } else {
                    p - 1
                };
                assert(str_bytes(pre[pp]) == x);
            }
        }
        assert forall|x: Seq<u8>|
            has_text(pre, x) || x == wb implies #[trigger] has_text(out@, x) by {
            if x == wb {
                assert(str_bytes(out@[i as int]) == x);
            } else {
                let p = choose|p: int| 0 <= p < pre.len() && str_bytes(#[trigger] pre[p]) == x;
                let pp = if p < i {
                    p
                } else {
                    p + 1
                };
                assert(str_bytes(out@[pp]) == x);
            }
        }
    }
}


/// `a` sorts no later than `b` under the key: the comparison is not
/// `Greater`.
pub open spec fn task_le(a: Task, b: Task, sort: SortTaskBy) -> bool {
    task_cmp(a, b, sort) != core::cmp::Ordering::Greater
}

/// A task sequence sorted under the key.
pub open spec fn list_sorted(s: Seq<Task>, sort: SortTaskBy) -> bool {
    forall|i: int, j: int|
        #![trigger s[i], s[j]]
        0 <= i < j < s.len() ==> task_le(s[i], s[j], sort)
}

/// Pairwise order facts for three byte sequences: totality and every
/// transitivity instance.
proof fn lemma_bytes3(x: Seq<u8>, y: Seq<u8>, z: Seq<u8>)
    ensures
        lex_le(x, y) || lex_le(y, x),
        lex_le(y, z) || lex_le(z, y),
        lex_le(x, z) || lex_le(z, x),
        lex_le(x, y) && lex_le(y, z) ==> lex_le(x, z),
        lex_le(z, y) && lex_le(y, x) ==> lex_le(z, x),
        lex_le(y, x) && lex_le(x, z) ==> lex_le(y, z),
        lex_le(z, x) && lex_le(x, y) ==> lex_le(z, y),
        lex_le(x, z) && lex_le(z, y) ==> lex_le(x, y),
        lex_le(y, z) && lex_le(z, x) ==> lex_le(y, x),
{
    lemma_lex_le_total(x, y);
    lemma_lex_le_total(y, z);
    lemma_lex_le_total(x, z);
    if lex_le(x, y) && lex_le(y, z) {
        lemma_lex_le_trans(x, y, z);
    }
    if lex_le(z, y) && lex_le(y, x) {
        lemma_lex_le_trans(z, y, x);
    }
    if lex_le(y, x) && lex_le(x, z) {
        lemma_lex_le_trans(y, x, z);
    }
    if lex_le(z, x) && lex_le(x, y) {
        lemma_lex_le_trans(z, x, y);
    }
    if lex_le(x, z) && lex_le(z, y) {
        lemma_lex_le_trans(x, z, y);
    }
    if lex_le(y, z) && lex_le(z, x) {
        lemma_lex_le_trans(y, z, x);
    }
}

/// The task order is total: of two tasks, one sorts no later than the other.
pub proof fn lemma_task_le_total(a: Task, b: Task, sort: SortTaskBy)
    ensures
        task_le(a, b, sort) || task_le(b, a, sort),
{
    lemma_bytes3(
        vstd::utf8::encode_utf8(a.text()),
        vstd::utf8::encode_utf8(b.text()),
        vstd::utf8::encode_utf8(b.text()),
    );
}

/// The task order is transitive.
pub proof fn lemma_task_le_trans(a: Task, b: Task, c: Task, sort: SortTaskBy)
    requires
        task_le(a, b, sort),
        task_le(b, c, sort),
    ensures
        task_le(a, c, sort),
{
    lemma_bytes3(
        vstd::utf8::encode_utf8(a.text()),
        vstd::utf8::encode_utf8(b.text()),
        vstd::utf8::encode_utf8(c.text()),
    );
    let dflt = choose|d: Date| #[trigger] d.le_spec(d);
    let da = if a.created() is Some { a.created().unwrap() } else { dflt };
    let db = if b.created() is Some { b.created().unwrap() } else { dflt };
    let dc = if c.created() is Some { c.created().unwrap() } else { dflt };
    lemma_date3(da, db, dc);
}

/// Tasks comparing equal compare equal the other way round too.
pub proof fn lemma_task_eq_sym(a: Task, b: Task, sort: SortTaskBy)
    requires
        task_cmp(a, b, sort) == core::cmp::Ordering::Equal,
    ensures
        task_cmp(b, a, sort) == core::cmp::Ordering::Equal,
{
    lemma_bytes3(
        vstd::utf8::encode_utf8(a.text()),
        vstd::utf8::encode_utf8(b.text()),
        vstd::utf8::encode_utf8(b.text()),
    );
}

/// A list of tasks kept sorted under a chosen key.
pub struct TaskList {
    content: Vec<Task>,
    sort: SortTaskBy,
}

impl TaskList {
    /// The tasks, in list order.
    pub closed spec fn tasks(self) -> Seq<Task> {
        self.content@
    }

    /// The key the list is ordered by.
    pub closed spec fn key(self) -> SortTaskBy {
        self.sort
    }

    /// The list is sorted under its key.
    pub open spec fn wf(self) -> bool {
        list_sorted(self.tasks(), self.key())
    }

    /// An empty list, ordered by creation date.
    pub fn new() -> (r: TaskList)
        ensures
            r.wf(),
            r.tasks() == Seq::<Task>::empty(),
            r.key() is CreationDate,
    {
        let r = TaskList { content: Vec::new(), sort: SortTaskBy::CreationDate };
        proof {
            assert(r.tasks() =~= Seq::<Task>::empty());
        }
        r
    }

    /// Changes the key and re-sorts the whole list under it.
    pub fn change_sort(&mut self, new_sort: SortTaskBy)
        requires
            old(self).tasks().len() < usize::MAX / 2,
        ensures
            final(self).wf(),
            final(self).key() == new_sort,
            final(self).tasks().to_multiset() == old(self).tasks().to_multiset(),
    {
        self.sort = new_sort;
        self.sort();
    }

    /// Sorts the list under its current key.
    pub fn sort(&mut self)
        requires
            old(self).tasks().len() < usize::MAX / 2,
        ensures
            final(self).wf(),
            final(self).key() == old(self).key(),
            final(self).tasks().to_multiset() == old(self).tasks().to_multiset(),
    {
        broadcast use vstd::seq_lib::group_to_multiset_ensures;

        let mut olds: Vec<Task> = Vec::new();
        core::mem::swap(&mut olds, &mut self.content);
        let ghost oldseq = olds@;
        proof {
            assert(self.content@ =~= oldseq.take(0));
        }
        let ghost done: int = 0;
        while olds.len() > 0
            invariant
                0 <= done <= oldseq.len(),
                olds@ == oldseq.skip(done),
                self.content@.len() == done,
                oldseq.len() < usize::MAX / 2,
                self.sort == old(self).key(),
                list_sorted(self.content@, self.sort),
                self.content@.to_multiset() == oldseq.take(done).to_multiset(),
            decreases olds@.len(),
        {
            let t = olds.remove(0);
            proof {
                assert(t == oldseq.skip(done)[0]);
                assert(t == oldseq[done]);
                assert(olds@ =~= oldseq.skip(done + 1));
            }
            self.insert_in_order(t);
            proof {
                done = done + 1;
                assert(oldseq.take(done) =~= oldseq.take(done - 1).push(t));
                vstd::seq_lib::to_multiset_build(oldseq.take(done - 1), t);
            }
        }
        proof {
            assert(oldseq.take(done) =~= oldseq);
        }
    }

    /// Finds the place where `t` belongs in the sorted `tab`: everything
    /// before the answer sorts no later than `t`, and `t` sorts no later
    /// than everything from the answer on.
    fn binary_search(tab: &Vec<Task>, t: &Task, sort: &SortTaskBy) -> (r: usize)
        requires
            list_sorted(tab@, *sort),
            1 <= tab@.len() <= usize::MAX / 2,
        ensures
            r <= tab@.len(),
            forall|i: int| 0 <= i < r ==> task_le(#[trigger] tab@[i], *t, *sort),
            forall|i: int| r <= i < tab@.len() ==> task_le(*t, #[trigger] tab@[i], *sort),
    {
        let mut a: usize = 0;
        let mut b: usize = tab.len() - 1;
        loop
            invariant
                list_sorted(tab@, *sort),
                1 <= tab@.len() <= usize::MAX / 2,
                a <= b + 1,
                b < tab@.len(),
                forall|i: int| 0 <= i < a ==> task_le(#[trigger] tab@[i], *t, *sort),
                forall|i: int| b < i < tab@.len() ==> task_le(*t, #[trigger] tab@[i], *sort),
            decreases b + 1 - a,
        {
            if a > b {
                return a;
            }
            let m = (a + b) / 2;
            match t.comp(&tab[m], sort) {
                core::cmp::Ordering::Greater => {
                    proof {
                        lemma_task_le_total(tab@[m as int], *t, *sort);
                        assert forall|i: int| 0 <= i < m + 1 implies task_le(
                            #[trigger] tab@[i],
                            *t,
                            *sort,
                        ) by {
                            if i < m {
                                lemma_task_le_trans(tab@[i], tab@[m as int], *t, *sort);
                            }
                        }
                    }
                    a = m + 1;
                },
                core::cmp::Ordering::Less => {
                    proof {
                        assert forall|i: int| m - 1 < i < tab@.len() implies task_le(
                            *t,
                            #[trigger] tab@[i],
                            *sort,
                        ) by {
                            if i > m {
                                lemma_task_le_trans(*t, tab@[m as int], tab@[i], *sort);
                            }
                        }
                    }
                    if m == 0 {
                        return a;
                    }
                    b = m - 1;
                },
                core::cmp::Ordering::Equal => {
                    proof {
                        lemma_task_eq_sym(*t, tab@[m as int], *sort);
                        assert forall|i: int| 0 <= i < m + 1 implies task_le(
                            #[trigger] tab@[i],
                            *t,
                            *sort,
                        ) by {
                            if i < m {
                                lemma_task_le_trans(tab@[i], tab@[m as int], *t, *sort);
                            }
                        }
                        assert forall|i: int| m + 1 <= i < tab@.len() implies task_le(
                            *t,
                            #[trigger] tab@[i],
                            *sort,
                        ) by {
                            lemma_task_le_trans(*t, tab@[m as int], tab@[i], *sort);
                        }
                    }
                    return m + 1;
                },
            }
        }
    }

    /// The tasks, in list order.
    pub fn get_content(&self) -> (r: &Vec<Task>)
        ensures
            r@ == self.tasks(),
    {
        &self.content
    }

    /// Adds a task at its place in the order.
    pub fn push(&mut self, t: Task)
        requires
            old(self).wf(),
            old(self).tasks().len() < usize::MAX / 2,
        ensures
            final(self).wf(),
            final(self).key() == old(self).key(),
            final(self).tasks().len() == old(self).tasks().len() + 1,
            final(self).tasks().to_multiset() == old(self).tasks().to_multiset().insert(t),
    {
        self.insert_in_order(t);
    }

    /// The sorted insertion shared by `push` and `sort`.
    fn insert_in_order(&mut self, t: Task)
        requires
            old(self).wf(),
            old(self).tasks().len() < usize::MAX / 2,
        ensures
            final(self).wf(),
            final(self).key() == old(self).key(),
            final(self).tasks().len() == old(self).tasks().len() + 1,
            final(self).tasks().to_multiset() == old(self).tasks().to_multiset().insert(t),
    {
        broadcast use vstd::seq_lib::to_multiset_insert;

        if self.content.len() == 0 {
            self.content.push(t);
            proof {
                assert(self.content@ =~= old(self).tasks().insert(0, t));
            }
            return ;
        }
        let pos = Self::binary_search(&self.content, &t, &self.sort);
        let ghost pre = self.content@;
        self.content.insert(pos, t);
        proof {
            assert forall|p: int, q: int|
                #![trigger self.content@[p], self.content@[q]]
                0 <= p < q < self.content@.len() implies task_le(
                self.content@[p],
                self.content@[q],
                self.sort,
            ) by {
                let ii = pos as int;
                if p == ii {
                    assert(self.content@[q] == pre[q - 1]);
                } else if q == ii {
                    assert(self.content@[p] == pre[p]);
                } else if p < ii && q > ii {
                    assert(self.content@[p] == pre[p]);
                    assert(self.content@[q] == pre[q - 1]);
                    if q - 1 == p {
                        lemma_task_le_total(pre[p], t, self.sort);
                        lemma_task_le_trans(pre[p], t, pre[p], self.sort);
                    }
                } else {
                    assert(self.content@[p] == if p < ii {
                        pre[p]
                    } else {
                        pre[p - 1]
                    });
                    assert(self.content@[q] == if q < ii {
                        pre[q]
                    } else {
                        pre[q - 1]
                    });
                }
            }
        }
    }

    /// Takes the task at `index` out of the list; everything else keeps its
    /// place and order.
    pub fn remove(&mut self, index: usize) -> (r: Task)
        requires
            old(self).wf(),
            index < old(self).tasks().len(),
        ensures
            final(self).wf(),
            final(self).key() == old(self).key(),
            r == old(self).tasks()[index as int],
            final(self).tasks() == old(self).tasks().remove(index as int),
    {
        let ghost pre = self.content@;
        let r = self.content.remove(index);
        proof {
            assert forall|p: int, q: int|
                #![trigger self.content@[p], self.content@[q]]
                0 <= p < q < self.content@.len() implies task_le(
                self.content@[p],
                self.content@[q],
                self.sort,
            ) by {
                let pp = if p < index {
                    p
                } else {
                    p + 1
                };
                let qq = if q < index {
                    q
                } else {
                    q + 1
                };
                assert(task_le(pre[pp], pre[qq], self.sort));
            }
        }
        r
    }
}


/// Whether some string of `v` has the text `t`.
fn contains_text(v: &Vec<String>, t: &String) -> (r: bool)
    ensures
        r == exists|i: int| 0 <= i < v@.len() && (#[trigger] v@[i])@ == t@,
{
    let mut i: usize = 0;
    while i < v.len()
        invariant
            i <= v@.len(),
            forall|j: int| 0 <= j < i ==> (#[trigger] v@[j])@ != t@,
        decreases v@.len() - i,
    {
        if v[i].eq(t) {
            return true;
        }
        i = i + 1;
    }
    false
}

/// The membership filters the task views use: everything, the pending or
/// the done tasks, or the pending tasks carrying one particular tag.
pub enum TaskFilter {
    Any,
    Pending,
    Done,
    PendingWithContextTag(String),
    PendingWithProjectTag(String),
}

impl Classifier<Task> for TaskFilter {
    open spec fn accepted(self, e: Task) -> bool {
        match self {
            TaskFilter::Any => true,
            TaskFilter::Pending => !e.done(),
            TaskFilter::Done => e.done(),
            TaskFilter::PendingWithContextTag(tag) => !e.done() && exists|i: int|
                0 <= i < e.ctags().len() && (#[trigger] e.ctags()[i])@ == tag@,
            TaskFilter::PendingWithProjectTag(tag) => !e.done() && exists|i: int|
                0 <= i < e.ptags().len() && (#[trigger] e.ptags()[i])@ == tag@,
        }
    }

    fn classify(&self, e: &Task) -> (r: bool) {
        match self {
            TaskFilter::Any => true,
            TaskFilter::Pending => !e.completion,
            TaskFilter::Done => e.completion,
            TaskFilter::PendingWithContextTag(tag) => !e.completion && contains_text(
                e.get_context_tags(),
                tag,
            ),
            TaskFilter::PendingWithProjectTag(tag) => !e.completion && contains_text(
                e.get_project_tags(),
                tag,
            ),
        }
    }
}

/// A projection order over tasks, one per sorting key.
pub enum TaskOrder {
    ByContent,
    ByCreationDate,
    ByPriority,
}

/// The sorting key a task order stands for.
pub open spec fn order_key(o: TaskOrder) -> SortTaskBy {
    match o {
        TaskOrder::ByContent => SortTaskBy::Content,
        TaskOrder::ByCreationDate => SortTaskBy::CreationDate,
        TaskOrder::ByPriority => SortTaskBy::Priority,
    }
}

impl Comparator<Task> for TaskOrder {
    open spec fn cle(self, a: Task, b: Task) -> bool {
        task_le(a, b, order_key(self))
    }

    proof fn cle_total(self, a: Task, b: Task) {
        lemma_task_le_total(a, b, order_key(self));
    }

    proof fn cle_trans(self, a: Task, b: Task, c: Task) {
        lemma_task_le_trans(a, b, c, order_key(self));
    }

    fn le(&self, a: &Task, b: &Task) -> (r: bool) {
        let sort = match self {
            TaskOrder::ByContent => SortTaskBy::Content,
            TaskOrder::ByCreationDate => SortTaskBy::CreationDate,
            TaskOrder::ByPriority => SortTaskBy::Priority,
        };
        match a.comp(b, &sort) {
            core::cmp::Ordering::Greater => false,
            _ => true,
        }
    }
}

/// The natural order of tasks for the canonical collection: by content
/// bytes, then completion state, then priority, then creation date, then
/// due date. Tasks equal in all five coalesce into one canonical slot.
pub open spec fn nat_le_tasks(a: Task, b: Task) -> bool {
    let ca = vstd::utf8::encode_utf8(a.text());
    let cb = vstd::utf8::encode_utf8(b.text());
    if ca != cb {
        lex_le(ca, cb)
    } else if a.done() != b.done() {
        !a.done()
    } else if a.prio() != b.prio() {
        opt_char_le(a.prio(), b.prio())
    } else if a.created() != b.created() {
        opt_date_le(a.created(), b.created())
    } else {
        opt_date_le(a.due(), b.due())
    }
}

/// Nothing comes before something; letters compare as characters.
pub open spec fn opt_char_le(a: Option<char>, b: Option<char>) -> bool {
    match (a, b) {
        (None, _) => true,
        (Some(x), None) => false,
        (Some(x), Some(y)) => x <= y,
    }
}

/// Nothing comes before something; dates compare chronologically.
pub open spec fn opt_date_le(a: Option<Date>, b: Option<Date>) -> bool {
    match (a, b) {
        (None, _) => true,
        (Some(x), None) => false,
        (Some(x), Some(y)) => x.le_spec(y),
    }
}

impl NaturalOrder for Task {
    open spec fn nle(a: Task, b: Task) -> bool {
        nat_le_tasks(a, b)
    }

    proof fn nle_total(a: Task, b: Task) {
        lemma_bytes3(
            vstd::utf8::encode_utf8(a.text()),
            vstd::utf8::encode_utf8(b.text()),
            vstd::utf8::encode_utf8(b.text()),
        );
        let dflt = choose|d: Date| #[trigger] d.le_spec(d);
        let ca = if a.created() is Some { a.created().unwrap() } else { dflt };
        let cb = if b.created() is Some { b.created().unwrap() } else { dflt };
        let da = if a.due() is Some { a.due().unwrap() } else { dflt };
        let db = if b.due() is Some { b.due().unwrap() } else { dflt };
        lemma_date3(ca, cb, cb);
        lemma_date3(da, db, db);
    }

    proof fn nle_trans(a: Task, b: Task, c: Task) {
        let ba = vstd::utf8::encode_utf8(a.text());
        let bb = vstd::utf8::encode_utf8(b.text());
        let bc = vstd::utf8::encode_utf8(c.text());
        lemma_bytes3(ba, bb, bc);
        if ba == bb && bb == bc {
        } else if ba == bb {
        } else if bb == bc {
        } else {
            if lex_le(ba, bb) && lex_le(bb, ba) {
                lemma_lex_le_antisym(ba, bb);
            }
            if lex_le(bb, bc) && lex_le(bc, bb) {
                lemma_lex_le_antisym(bb, bc);
            }
        }
        let dflt = choose|d: Date| #[trigger] d.le_spec(d);
        let ca = if a.created() is Some { a.created().unwrap() } else { dflt };
        let cb = if b.created() is Some { b.created().unwrap() } else { dflt };
        let cc = if c.created() is Some { c.created().unwrap() } else { dflt };
        lemma_date3(ca, cb, cc);
        let da = if a.due() is Some { a.due().unwrap() } else { dflt };
        let db = if b.due() is Some { b.due().unwrap() } else { dflt };
        let dc = if c.due() is Some { c.due().unwrap() } else { dflt };
        lemma_date3(da, db, dc);
    }

    fn nat_le(a: &Task, b: &Task) -> (r: bool) {
        let ab = a.content.as_str().as_bytes();
        let bb = b.content.as_str().as_bytes();
        let le1 = bytes_le(ab, bb);
        let le2 = bytes_le(bb, ab);
        proof {
            if le1 && le2 {
                lemma_lex_le_antisym(str_bytes(a.content), str_bytes(b.content));
            }
            lemma_lex_le_total(str_bytes(a.content), str_bytes(b.content));
        }
        if !(le1 && le2) {
            return le1;
        }
        if a.completion != b.completion {
            return !a.completion;
        }
        let pe = match (a.priority, b.priority) {
            (None, None) => true,
            (Some(x), Some(y)) => x == y,
            _ => false,
        };
        if !pe {
            return match (a.priority, b.priority) {
                (None, _) => true,
                (Some(_), None) => false,
                (Some(x), Some(y)) => x <= y,
            };
        }
        let ce = match (&a.creation_date, &b.creation_date) {
            (None, None) => true,
            (Some(x), Some(y)) => *x == *y,
            _ => false,
        };
        if !ce {
            return match (&a.creation_date, &b.creation_date) {
                (None, _) => true,
                (Some(_), None) => false,
                (Some(x), Some(y)) => x.le(y),
            };
        }
        match (&a.duedate, &b.duedate) {
            (None, _) => true,
            (Some(_), None) => false,
            (Some(x), Some(y)) => x.le(y),
        }
    }
}

} // verus!
