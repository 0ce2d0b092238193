//! Helpers on text and on entries: names pulled out of a tree payload that
//! was turned into text, the last part of a path, the size of an entry.

use crate::tree::Object;
use vstd::layout::spec_size_of_val;
use vstd::prelude::*;
use vstd::string::{StrSliceExecFns, StringExecFns};

verus! {

/// The characters of `text`, one by one.
pub fn chars_of(text: &str) -> (out: Vec<char>)
    ensures
        out@ == text@,
{
    broadcast use vstd::string::group_string_axioms;

    let mut out: Vec<char> = Vec::new();
    for c in it: text.chars()
        invariant
            it.seq() == text@,
            out@ == text@.take(it.index() as int),
    {
        proof {
            assert(text@.take(it.index() + 1) =~= text@.take(it.index() as int).push(c));
        }
        out.push(c);
    }
    proof {
        assert(text@.take(text@.len() as int) =~= text@);
    }
    out
}

/// The texts of a sequence of strings.
pub open spec fn texts(strings: Seq<String>) -> Seq<Seq<char>> {
    Seq::new(strings.len(), |i: int| strings[i]@)
}

/// The texts of a sequence of string slices.
pub open spec fn slice_texts(strings: Seq<&str>) -> Seq<Seq<char>> {
    Seq::new(strings.len(), |i: int| strings[i]@)
}

/// The texts of a sequence of character vectors.
pub open spec fn vec_texts(strings: Seq<Vec<char>>) -> Seq<Seq<char>> {
    Seq::new(strings.len(), |i: int| strings[i]@)
}

/// Whether `pattern` stands in `text` at index `at`. An empty pattern
/// stands nowhere.
pub open spec fn occurs_at(text: Seq<char>, pattern: Seq<char>, at: int) -> bool {
    &&& pattern.len() > 0
    &&& 0 <= at
    &&& at + pattern.len() <= text.len()
    &&& text.subrange(at, at + pattern.len()) == pattern
}

/// The index of the first of the patterns from `from` on that stands in
/// `text` at `at`; the number of patterns where none does.
pub open spec fn pattern_at(text: Seq<char>, patterns: Seq<Seq<char>>, at: int, from: int) -> int
    decreases patterns.len() - from,
{
    if from < 0 || from >= patterns.len() {
        patterns.len() as int
    } else if occurs_at(text, patterns[from], at) {
        from
    } else {
        pattern_at(text, patterns, at, from + 1)
    }
}

/// The first index at or after `from` at which one of the patterns stands
/// in `text`; the length of `text` where there is none.
pub open spec fn next_match(text: Seq<char>, patterns: Seq<Seq<char>>, from: int) -> int
    decreases text.len() - from,
{
    if from < 0 || from >= text.len() {
        text.len() as int
    } else if pattern_at(text, patterns, from, 0) < patterns.len() {
        from
    } else {
        next_match(text, patterns, from + 1)
    }
}

/// The index of the first `c` in `text` at or after `from`; the length of
/// `text` where there is none.
pub open spec fn find_char(text: Seq<char>, c: char, from: int) -> int
    decreases text.len() - from,
{
    if from < 0 || from >= text.len() {
        text.len() as int
    } else if text[from] == c {
        from
    } else {
        find_char(text, c, from + 1)
    }
}

/// The name behind a pattern that ends before `start`: one character is
/// passed over, and the name runs from the next up to a NUL or the end of
/// `text`.
pub open spec fn name_behind(text: Seq<char>, start: int) -> Seq<char> {
    if start < 0 || start + 1 >= text.len() {
        Seq::empty()
    } else {
        text.subrange(start + 1, find_char(text, '\0', start + 1))
    }
}

/// The names that stand behind the patterns in `text` from `from` on.
///
/// The search goes to the first place where one of the patterns stands, and
/// takes the first pattern in the list that stands there. The name behind
/// it is kept unless it is empty, and the search goes on right behind the
/// pattern.
pub open spec fn extracted(text: Seq<char>, patterns: Seq<Seq<char>>, from: int) -> Seq<Seq<char>>
    decreases text.len() - from,
{
    let at = next_match(text, patterns, from);
    let which = pattern_at(text, patterns, at, 0);
    if from < 0 || at >= text.len() || which < 0 || which >= patterns.len() {
        Seq::empty()
    } else {
        let start = at + patterns[which].len();
        let name = name_behind(text, start);
        if start <= from || start > text.len() {
            Seq::empty()
        } else if name.len() > 0 {
            seq![name] + extracted(text, patterns, start)
        } else {
            extracted(text, patterns, start)
        }
    }
}

/// What `pattern_at` finds is a pattern that stands at `at`.
pub proof fn lemma_pattern_at(text: Seq<char>, patterns: Seq<Seq<char>>, at: int, from: int)
    requires
        0 <= from <= patterns.len(),
    ensures
        from <= pattern_at(text, patterns, at, from) <= patterns.len(),
        pattern_at(text, patterns, at, from) < patterns.len() ==> occurs_at(
            text,
            patterns[pattern_at(text, patterns, at, from)],
            at,
        ),
    decreases patterns.len() - from,
{
    if from < patterns.len() && !occurs_at(text, patterns[from], at) {
        lemma_pattern_at(text, patterns, at, from + 1);
    }
}

/// What `next_match` finds lies at or after `from`, and a pattern stands
/// there.
pub proof fn lemma_next_match(text: Seq<char>, patterns: Seq<Seq<char>>, from: int)
    requires
        0 <= from,
    ensures
        next_match(text, patterns, from) <= text.len(),
        next_match(text, patterns, from) < text.len() ==> from <= next_match(
            text,
            patterns,
            from,
        ) && pattern_at(text, patterns, next_match(text, patterns, from), 0) < patterns.len(),
    decreases text.len() - from,
{
    if from < text.len() && !(pattern_at(text, patterns, from, 0) < patterns.len()) {
        lemma_next_match(text, patterns, from + 1);
    }
}

/// What `find_char` finds lies between `from` and the end of `text`, and
/// no `c` stands before it.
proof fn lemma_find_char(text: Seq<char>, c: char, from: int)
    requires
        0 <= from <= text.len(),
    ensures
        from <= find_char(text, c, from) <= text.len(),
        forall|j: int| from <= j < find_char(text, c, from) ==> text[j] != c,
    decreases text.len() - from,
{
    if from < text.len() && text[from] != c {
        lemma_find_char(text, c, from + 1);
    }
}

/// Every name that is pulled out has at least one character, and no NUL
/// among them.
pub proof fn lemma_extracted_names(text: Seq<char>, patterns: Seq<Seq<char>>, from: int)
    requires
        0 <= from,
    ensures
        forall|k: int|
            0 <= k < extracted(text, patterns, from).len() ==> (#[trigger] extracted(
                text,
                patterns,
                from,
            )[k]).len() > 0 && !extracted(text, patterns, from)[k].contains('\0'),
    decreases text.len() - from,
{
    let at = next_match(text, patterns, from);
    let which = pattern_at(text, patterns, at, 0);
    if at < text.len() && 0 <= which < patterns.len() {
        let start = at + patterns[which].len();
        let name = name_behind(text, start);
        if from < start <= text.len() {
            lemma_extracted_names(text, patterns, start);
            let rest = extracted(text, patterns, start);
            let all = extracted(text, patterns, from);
            if name.len() > 0 {
                lemma_find_char(text, '\0', start + 1);
                assert(!name.contains('\0')) by {
                    if name.contains('\0') {
                        let i = choose|i: int| 0 <= i < name.len() && name[i] == '\0';
                        assert(text[start + 1 + i] == '\0');
                    }
                }
                assert forall|k: int| 0 <= k < all.len() implies (#[trigger] all[k]).len() > 0
                    && !all[k].contains('\0') by {
                    if k > 0 {
                        assert(all[k] == rest[k - 1]);
                    }
                }
            }
        }
    }
}

/// Whether `pattern` stands in `text` at index `at`.
fn occurs(text: &Vec<char>, pattern: &Vec<char>, at: usize) -> (found: bool)
    ensures
        found == occurs_at(text@, pattern@, at as int),
{
    if pattern.len() == 0 || at > text.len() || pattern.len() > text.len() - at {
        return false;
    }
    let mut k: usize = 0;
    while k < pattern.len()
        invariant
            0 <= k <= pattern.len(),
            at + pattern.len() <= text.len(),
            forall|j: int| 0 <= j < k ==> text@[at + j] == pattern@[j],
        decreases pattern.len() - k,
    {
        if text[at + k] != pattern[k] {
            proof {
                assert(text@.subrange(at as int, at + pattern.len())[k as int] == text@[at + k]);
            }
            return false;
        }
        k = k + 1;
    }
    proof {
        assert(text@.subrange(at as int, at + pattern.len()) =~= pattern@);
    }
    true
}

/// The first of the patterns that stands in `text` at `at`.
fn first_pattern_at(text: &Vec<char>, patterns: &Vec<Vec<char>>, at: usize) -> (which: usize)
    ensures
        which == pattern_at(text@, vec_texts(patterns@), at as int, 0),
        which <= patterns.len(),
{
    let ghost views = vec_texts(patterns@);
    let mut which: usize = 0;
    while which < patterns.len()
        invariant
            0 <= which <= patterns.len(),
            views == vec_texts(patterns@),
            pattern_at(text@, views, at as int, 0) == pattern_at(
                text@,
                views,
                at as int,
                which as int,
            ),
        decreases patterns.len() - which,
    {
        if occurs(text, &patterns[which], at) {
            return which;
        }
        which = which + 1;
    }
    which
}

/// The first index at or after `from` at which one of the patterns stands.
fn find_match(text: &Vec<char>, patterns: &Vec<Vec<char>>, from: usize) -> (at: usize)
    ensures
        at == next_match(text@, vec_texts(patterns@), from as int),
        at <= text.len(),
{
    let ghost views = vec_texts(patterns@);
    let mut at: usize = from;
    while at < text.len()
        invariant
            from <= at,
            views == vec_texts(patterns@),
            next_match(text@, views, from as int) == next_match(text@, views, at as int),
        decreases text.len() - at,
    {
        if first_pattern_at(text, patterns, at) < patterns.len() {
            return at;
        }
        at = at + 1;
    }
    text.len()
}

/// The index of the first `c` at or after `from`.
fn position_of_char(text: &Vec<char>, c: char, from: usize) -> (at: usize)
    requires
        from <= text.len(),
    ensures
        at == find_char(text@, c, from as int),
        from <= at <= text.len(),
{
    let mut at: usize = from;
    while at < text.len()
        invariant
            from <= at <= text.len(),
            find_char(text@, c, from as int) == find_char(text@, c, at as int),
        decreases text.len() - at,
    {
        if text[at] == c {
            return at;
        }
        at = at + 1;
    }
    at
}

/// The names that stand behind the given patterns in `input`, in the order
/// in which they stand there.
///
/// Made for the text of a tree payload, with the modes as patterns: behind
/// a mode stands a space, then the name, then a NUL. A name that holds one
/// of the patterns is searched again. An empty pattern is passed over.
pub fn extract_after_numeric(input: String, patterns: &[&str]) -> (results: Vec<String>)
    ensures
        texts(results@) == extracted(input@, slice_texts(patterns@), 0),
{
    let text = chars_of(input.as_str());
    let mut wanted: Vec<Vec<char>> = Vec::new();
    let mut j: usize = 0;
    while j < patterns.len()
        invariant
            0 <= j <= patterns.len(),
            wanted@.len() == j,
            vec_texts(wanted@) == slice_texts(patterns@).take(j as int),
        decreases patterns.len() - j,
    {
        let pattern = chars_of(patterns[j]);
        proof {
            let longer = vec_texts(wanted@.push(pattern));
            let due = slice_texts(patterns@).take(j + 1);
            assert(longer.len() == j + 1 && due.len() == j + 1);
            assert forall|i: int| 0 <= i < j + 1 implies longer[i] == due[i] by {
                if i < j {
                    assert(wanted@.push(pattern)[i] == wanted@[i]);
                    assert(longer[i] == vec_texts(wanted@)[i]);
                    assert(due[i] == slice_texts(patterns@).take(j as int)[i]);
                } else {
                    assert(wanted@.push(pattern)[i] == pattern);
                    assert(due[i] == patterns@[j as int]@);
                }
            }
            assert(longer =~= due);
        }
        wanted.push(pattern);
        j = j + 1;
    }
    let ghost views = vec_texts(wanted@);
    proof {
        assert(slice_texts(patterns@).take(patterns.len() as int) =~= slice_texts(patterns@));
        assert(texts(Seq::<String>::empty()) =~= Seq::<Seq<char>>::empty());
    }
    let mut results: Vec<String> = Vec::new();
    let mut from: usize = 0;
    loop
        invariant
            from <= text.len(),
            text@ == input@,
            views == vec_texts(wanted@),
            extracted(text@, views, 0) == texts(results@) + extracted(text@, views, from as int),
        ensures
            extracted(text@, views, 0) == texts(results@),
        decreases text.len() - from,
    {
        let at = find_match(&text, &wanted, from);
        proof {
            lemma_next_match(text@, views, from as int);
            lemma_pattern_at(text@, views, at as int, 0);
        }
        if at >= text.len() {
            proof {
                assert(texts(results@) + Seq::<Seq<char>>::empty() =~= texts(results@));
            }
            break ;
        }
        let which = first_pattern_at(&text, &wanted, at);
        let start = at + wanted[which].len();
        let ghost found = texts(results@);
        let ghost rest = extracted(text@, views, start as int);
        if text.len() - start > 1 {
            let end = position_of_char(&text, '\0', start + 1);
            if end > start + 1 {
                let name = String::from_str(input.as_str().substring_char(start + 1, end));
                proof {
                    assert(texts(results@.push(name)) =~= found.push(name@));
                    assert(found + (seq![name@] + rest) =~= found.push(name@) + rest);
                }
                results.push(name);
            }
        }
        from = start;
    }
    results
}

/// The index behind the last `c` before `end`; 0 where there is none.
pub open spec fn tail_start(text: Seq<char>, c: char, end: int) -> int
    decreases end,
{
    if end <= 0 {
        0
    } else if text[end - 1] == c {
        end
    } else {
        tail_start(text, c, end - 1)
    }
}

/// What stands in `text` behind its last backslash; all of it where it has
/// none.
pub open spec fn filename_of(text: Seq<char>) -> Seq<char> {
    text.skip(tail_start(text, '\\', text.len() as int))
}

/// The tail starts within the text, right behind a `c` or at the start, and
/// holds no `c`.
proof fn lemma_tail_start(text: Seq<char>, c: char, end: int)
    requires
        0 <= end <= text.len(),
    ensures
        0 <= tail_start(text, c, end) <= end,
        tail_start(text, c, end) > 0 ==> text[tail_start(text, c, end) - 1] == c,
        forall|j: int| tail_start(text, c, end) <= j < end ==> text[j] != c,
    decreases end,
{
    if end > 0 && text[end - 1] != c {
        lemma_tail_start(text, c, end - 1);
    }
}

/// The filename is the end of the path, holds no backslash, and is all of
/// the path or stands right behind a backslash.
pub proof fn lemma_filename_of(text: Seq<char>)
    ensures
        filename_of(text).len() <= text.len(),
        filename_of(text) == text.skip(text.len() - filename_of(text).len()),
        !filename_of(text).contains('\\'),
        filename_of(text).len() < text.len() ==> text[text.len() - filename_of(text).len() - 1]
            == '\\',
{
    let start = tail_start(text, '\\', text.len() as int);
    lemma_tail_start(text, '\\', text.len() as int);
    let name = filename_of(text);
    if name.contains('\\') {
        let i = choose|i: int| 0 <= i < name.len() && name[i] == '\\';
        assert(text[start + i] == '\\');
    }
}

/// The index behind the last `c` in `text`.
fn tail_index(text: &Vec<char>, c: char) -> (start: usize)
    ensures
        start == tail_start(text@, c, text@.len() as int),
        start <= text.len(),
{
    let mut start: usize = text.len();
    while start > 0
        invariant
            0 <= start <= text.len(),
            tail_start(text@, c, text@.len() as int) == tail_start(text@, c, start as int),
        decreases start,
    {
        if text[start - 1] == c {
            return start;
        }
        start = start - 1;
    }
    start
}

/// The last part of a path written with backslashes: what stands behind the
/// last of them.
pub fn extract_filename(input: String) -> (filename: String)
    ensures
        filename@ == filename_of(input@),
{
    let text = chars_of(input.as_str());
    let start = tail_index(&text, '\\');
    proof {
        assert(input@.skip(start as int) =~= input@.subrange(start as int, input@.len() as int));
    }
    String::from_str(input.as_str().substring_char(start, text.len()))
}

/// The size of an entry in memory: the entry itself, and the bytes of its
/// name on the heap.
pub fn calculate_total_size(obj: &Object) -> (total: usize)
    requires
        spec_size_of_val(obj) + obj.name@.len() <= usize::MAX,
    ensures
        total == spec_size_of_val(obj) + obj.name@.len(),
{
    let size_on_stack = std::mem::size_of_val(obj);
    let heap_size = obj.name.len();
    size_on_stack + heap_size
}

} // verus!
