//! Paths taken relative to the directory they were found under.
//!
//! A path is handled as text: the root is cut out wherever it stands, and
//! the separators that are left in front are dropped.

use crate::text::{chars_of, find_from, occurs_at, occurs_in};
use vstd::prelude::*;

verus! {

/// `text` with every occurrence of `pattern` cut out. Occurrences are taken
/// from the left and do not overlap: behind one that was cut out, the search
/// goes on with what follows it. An empty `pattern` cuts nothing out.
pub open spec fn without(text: Seq<char>, pattern: Seq<char>) -> Seq<char>
    decreases text.len(),
{
    if pattern.len() == 0 || text.len() < pattern.len() {
        text
    } else if occurs_at(text, pattern, 0) {
        without(text.skip(pattern.len() as int), pattern)
    } else {
        seq![text[0]] + without(text.skip(1), pattern)
    }
}

/// `text` without the separators it begins with.
pub open spec fn stripped(text: Seq<char>, separator: char) -> Seq<char>
    decreases text.len(),
{
    if text.len() > 0 && text[0] == separator {
        stripped(text.skip(1), separator)
    } else {
        text
    }
}

/// `text` does not begin with a separator.
pub open spec fn is_relative(text: Seq<char>, separator: char) -> bool {
    text.len() == 0 || text[0] != separator
}

/// `full` as a path below `root`: `root` is cut out of it, then the leading
/// separators are dropped.
pub open spec fn relative(full: Seq<char>, root: Seq<char>, separator: char) -> Seq<char> {
    stripped(without(full, root), separator)
}

/// An occurrence in what follows the first `n` characters is an occurrence
/// `n` places further on in the whole.
pub proof fn lemma_occurs_at_skip(text: Seq<char>, pattern: Seq<char>, n: int, at: int)
    requires
        0 <= n <= text.len(),
        0 <= at,
    ensures
        occurs_at(text.skip(n), pattern, at) == occurs_at(text, pattern, n + at),
{
    if at + pattern.len() <= text.len() - n {
        assert(text.skip(n).subrange(at, at + pattern.len()) =~= text.subrange(
            n + at,
            n + at + pattern.len(),
        ));
    }
}

/// Where `pattern` stands nowhere in `text`, nothing is cut out.
pub proof fn lemma_without_absent(text: Seq<char>, pattern: Seq<char>)
    requires
        !occurs_in(text, pattern),
    ensures
        without(text, pattern) == text,
    decreases text.len(),
{
    if pattern.len() == 0 || text.len() < pattern.len() {
    } else {
        assert(!occurs_at(text, pattern, 0));
        assert forall|at: int| !occurs_at(text.skip(1), pattern, at) by {
            if 0 <= at {
                lemma_occurs_at_skip(text, pattern, 1, at);
                assert(!occurs_at(text, pattern, 1 + at));
            }
        }
        lemma_without_absent(text.skip(1), pattern);
        assert(seq![text[0]] + text.skip(1) =~= text);
    }
}

/// Where the first occurrence of a non-empty `pattern` stands at `at`, what
/// is in front of it stays, and the cutting goes on behind it.
pub proof fn lemma_without_first(text: Seq<char>, pattern: Seq<char>, at: int)
    requires
        pattern.len() > 0,
        occurs_at(text, pattern, at),
        forall|j: int| 0 <= j < at ==> !occurs_at(text, pattern, j),
    ensures
        without(text, pattern) == text.take(at) + without(
            text.skip(at + pattern.len()),
            pattern,
        ),
    decreases at,
{
    if at == 0 {
        assert(text.take(0) + without(text.skip(pattern.len() as int), pattern) =~= without(
            text.skip(pattern.len() as int),
            pattern,
        ));
    } else {
        let rest = text.skip(1);
        lemma_occurs_at_skip(text, pattern, 1, at - 1);
        assert forall|j: int| 0 <= j < at - 1 implies !occurs_at(rest, pattern, j) by {
            lemma_occurs_at_skip(text, pattern, 1, j);
        }
        lemma_without_first(rest, pattern, at - 1);
        assert(rest.skip(at - 1 + pattern.len()) =~= text.skip(at + pattern.len()));
        assert(seq![text[0]] + rest.take(at - 1) =~= text.take(at));
        assert(seq![text[0]] + (rest.take(at - 1) + without(
            text.skip(at + pattern.len()),
            pattern,
        )) =~= text.take(at) + without(text.skip(at + pattern.len()), pattern));
    }
}

/// Stripping drops exactly the run of separators in front: where the first
/// `run` characters are separators and the next one is not, what is left
/// starts behind them.
pub proof fn lemma_stripped_run(text: Seq<char>, separator: char, run: int)
    requires
        0 <= run <= text.len(),
        forall|j: int| 0 <= j < run ==> text[j] == separator,
        run == text.len() || text[run] != separator,
    ensures
        stripped(text, separator) == text.skip(run),
    decreases run,
{
    if run == 0 {
        assert(text.skip(0) =~= text);
    } else {
        let rest = text.skip(1);
        lemma_stripped_run(rest, separator, run - 1);
        assert(rest.skip(run - 1) =~= text.skip(run));
    }
}

/// What is left after stripping does not begin with a separator.
pub proof fn lemma_stripped_is_relative(text: Seq<char>, separator: char)
    ensures
        is_relative(stripped(text, separator), separator),
    decreases text.len(),
{
    if text.len() > 0 && text[0] == separator {
        lemma_stripped_is_relative(text.skip(1), separator);
    }
}

/// Whatever stands in the stripped text stands in the whole text.
pub proof fn lemma_occurs_in_stripped(text: Seq<char>, pattern: Seq<char>, separator: char)
    requires
        occurs_in(stripped(text, separator), pattern),
    ensures
        occurs_in(text, pattern),
    decreases text.len(),
{
    if text.len() > 0 && text[0] == separator {
        lemma_occurs_in_stripped(text.skip(1), pattern, separator);
        let at = choose|at: int| occurs_at(text.skip(1), pattern, at);
        lemma_occurs_at_skip(text, pattern, 1, at);
        assert(occurs_at(text, pattern, 1 + at));
    }
}

/// The segments of `text`: what stands between its separators, in order.
/// A text without a separator is one segment, and so is the empty text.
pub open spec fn segments(text: Seq<char>, separator: char) -> Seq<Seq<char>>
    decreases text.len(),
{
    if text.len() == 0 {
        seq![Seq::empty()]
    } else {
        let rest = segments(text.skip(1), separator);
        if text[0] == separator {
            seq![Seq::empty()] + rest
        } else {
            seq![seq![text[0]] + rest[0]] + rest.skip(1)
        }
    }
}

/// `parts` put together, with a separator between each two of them.
pub open spec fn glued(parts: Seq<Seq<char>>, separator: char) -> Seq<char>
    decreases parts.len(),
{
    if parts.len() == 0 {
        Seq::empty()
    } else if parts.len() == 1 {
        parts[0]
    } else {
        parts[0] + seq![separator] + glued(parts.skip(1), separator)
    }
}

/// `parts` without the empty ones in front.
pub open spec fn without_leading_empty(parts: Seq<Seq<char>>) -> Seq<Seq<char>>
    decreases parts.len(),
{
    if parts.len() > 0 && parts[0].len() == 0 {
        without_leading_empty(parts.skip(1))
    } else {
        parts
    }
}

/// Every text has at least one segment.
pub proof fn lemma_segments_len(text: Seq<char>, separator: char)
    ensures
        segments(text, separator).len() >= 1,
    decreases text.len(),
{
    if text.len() > 0 {
        lemma_segments_len(text.skip(1), separator);
    }
}

/// The segments of a text, put together again, are the text.
pub proof fn lemma_glued_segments(text: Seq<char>, separator: char)
    ensures
        glued(segments(text, separator), separator) == text,
    decreases text.len(),
{
    if text.len() == 0 {
        assert(text =~= Seq::empty());
    } else {
        let rest = segments(text.skip(1), separator);
        let parts = segments(text, separator);
        lemma_segments_len(text.skip(1), separator);
        lemma_glued_segments(text.skip(1), separator);
        if text[0] == separator {
            assert(parts.skip(1) =~= rest);
            assert(Seq::<char>::empty() + seq![separator] + text.skip(1) =~= text);
        } else if rest.len() == 1 {
            assert(seq![text[0]] + text.skip(1) =~= text);
        } else {
            assert(parts.skip(1) =~= rest.skip(1));
            let behind = glued(rest.skip(1), separator);
            assert((seq![text[0]] + rest[0]) + seq![separator] + behind =~= seq![text[0]]
                + (rest[0] + seq![separator] + behind));
            assert(seq![text[0]] + text.skip(1) =~= text);
        }
    }
}

/// Stripping the leading separators is splitting the text at its
/// separators, dropping the empty segments in front, and putting the rest
/// together again.
pub proof fn lemma_stripped_by_segments(text: Seq<char>, separator: char)
    ensures
        stripped(text, separator) == glued(
            without_leading_empty(segments(text, separator)),
            separator,
        ),
    decreases text.len(),
{
    let parts = segments(text, separator);
    if text.len() == 0 {
        assert(parts.skip(1) =~= Seq::<Seq<char>>::empty());
        assert(without_leading_empty(parts.skip(1)) == Seq::<Seq<char>>::empty());
        assert(text =~= Seq::empty());
    } else if text[0] == separator {
        let rest = segments(text.skip(1), separator);
        assert(parts.skip(1) =~= rest);
        lemma_stripped_by_segments(text.skip(1), separator);
    } else {
        lemma_glued_segments(text, separator);
    }
}

/// `rest` put behind `root`, with one separator between them unless `root`
/// is empty or ends in one.
pub open spec fn joined(root: Seq<char>, rest: Seq<char>, separator: char) -> Seq<char> {
    if root.len() == 0 || root.last() == separator {
        root + rest
    } else {
        root + seq![separator] + rest
    }
}

/// A path that begins with `root`, and in which `root` stands nowhere
/// behind that, taken relative to `root`, is what follows `root` without
/// its leading separators.
pub proof fn lemma_relative_below_root(root: Seq<char>, tail: Seq<char>, separator: char)
    requires
        root.len() > 0 ==> !occurs_in(tail, root),
    ensures
        relative(root + tail, root, separator) == stripped(tail, separator),
        is_relative(relative(root + tail, root, separator), separator),
{
    let full = root + tail;
    if root.len() > 0 {
        assert(full.subrange(0, root.len() as int) =~= root);
        assert(occurs_at(full, root, 0));
        lemma_without_first(full, root, 0);
        assert(full.skip(root.len() as int) =~= tail);
        lemma_without_absent(tail, root);
        assert(full.take(0) + tail =~= tail);
    } else {
        assert(full =~= tail);
    }
    lemma_stripped_is_relative(tail, separator);
}

/// Round trip. Let a path be made of `root` and a relative `rest` joined
/// onto it, and let `root` stand nowhere in it but in front. Taken relative
/// to `root`, the path gives `rest` back, so joining the result onto `root`
/// gives the path back, character for character.
pub proof fn lemma_relative_inverts_joined(root: Seq<char>, rest: Seq<char>, separator: char)
    requires
        is_relative(rest, separator),
        root.len() > 0 ==> !occurs_in(
            joined(root, rest, separator).skip(root.len() as int),
            root,
        ),
    ensures
        relative(joined(root, rest, separator), root, separator) == rest,
        is_relative(relative(joined(root, rest, separator), root, separator), separator),
        joined(root, relative(joined(root, rest, separator), root, separator), separator)
            == joined(root, rest, separator),
{
    let full = joined(root, rest, separator);
    let tail = full.skip(root.len() as int);
    assert(full =~= root + tail);
    lemma_relative_below_root(root, tail, separator);
    if root.len() == 0 || root.last() == separator {
        assert(tail =~= rest);
        lemma_stripped_run(tail, separator, 0);
        assert(tail.skip(0) =~= rest);
    } else {
        assert(tail =~= seq![separator] + rest);
        lemma_stripped_run(tail, separator, 1);
        assert(tail.skip(1) =~= rest);
    }
}

/// Where `root` stands nowhere in `full`, taking `full` relative to `root`
/// only drops the leading separators. A `full` that has none comes back
/// unchanged, and taking the result relative to `root` once more changes
/// nothing.
pub proof fn lemma_relative_without_root(full: Seq<char>, root: Seq<char>, separator: char)
    requires
        root.len() == 0 || !occurs_in(full, root),
    ensures
        relative(full, root, separator) == stripped(full, separator),
        is_relative(full, separator) ==> relative(full, root, separator) == full,
        relative(relative(full, root, separator), root, separator) == relative(
            full,
            root,
            separator,
        ),
{
    let once = stripped(full, separator);
    if root.len() > 0 {
        lemma_without_absent(full, root);
        if occurs_in(once, root) {
            lemma_occurs_in_stripped(full, root, separator);
        }
        lemma_without_absent(once, root);
    }
    lemma_stripped_is_relative(full, separator);
}

/// Cuts every occurrence of `pattern` out of `text`.
pub fn remove_all(text: &str, pattern: &str) -> (out: String)
    ensures
        out@ == without(text@, pattern@),
{
    let hay = chars_of(text);
    let needle = chars_of(pattern);
    if needle.len() == 0 {
        return String::from_str(text);
    }
    let mut out = String::new();
    let mut from: usize = 0;
    proof {
        assert(text@.skip(0) =~= text@);
        assert(out@ + without(text@, pattern@) =~= without(text@, pattern@));
    }
    loop
        invariant
            hay@ == text@,
            needle@ == pattern@,
            needle.len() > 0,
            from <= hay.len(),
            without(text@, pattern@) == out@ + without(text@.skip(from as int), pattern@),
        decreases hay.len() - from,
    {
        let ghost tail = text@.skip(from as int);
        match find_from(&hay, &needle, from) {
            Some(at) => {
                proof {
                    lemma_occurs_at_skip(text@, pattern@, from as int, at - from);
                    assert forall|j: int| 0 <= j < at - from implies !occurs_at(
                        tail,
                        pattern@,
                        j,
                    ) by {
                        lemma_occurs_at_skip(text@, pattern@, from as int, j);
                    }
                    lemma_without_first(tail, pattern@, at - from);
                    assert(tail.take(at - from) =~= text@.subrange(from as int, at as int));
                    assert(tail.skip(at - from + pattern@.len()) =~= text@.skip(
                        at + pattern@.len(),
                    ));
                }
                out.append(text.substring_char(from, at));
                from = at + needle.len();
            },
            None => {
                proof {
                    assert forall|j: int| !occurs_at(tail, pattern@, j) by {
                        if 0 <= j {
                            lemma_occurs_at_skip(text@, pattern@, from as int, j);
                        }
                    }
                    lemma_without_absent(tail, pattern@);
                    assert(tail =~= text@.subrange(from as int, hay.len() as int));
                }
                out.append(text.substring_char(from, hay.len()));
                return out;
            },
        }
    }
}

/// Drops the separators that `text` begins with.
pub fn strip_leading(text: &str, separator: char) -> (out: &str)
    ensures
        out@ == stripped(text@, separator),
{
    let chars = chars_of(text);
    let mut run: usize = 0;
    while run < chars.len() && chars[run] == separator
        invariant
            run <= chars.len(),
            forall|j: int| 0 <= j < run ==> chars@[j] == separator,
        decreases chars.len() - run,
    {
        run += 1;
    }
    proof {
        lemma_stripped_run(text@, separator, run as int);
    }
    text.substring_char(run, chars.len())
}

/// Takes `full` relative to `root`, with `separator` between the segments
/// of a path.
pub fn relativize(full: &str, root: &str, separator: char) -> (path: String)
    ensures
        path@ == relative(full@, root@, separator),
{
    let cut = remove_all(full, root);
    String::from_str(strip_leading(cut.as_str(), separator))
}

/// The separator of path segments on the machine this runs on
/// (`std::path::MAIN_SEPARATOR`). Nothing is claimed of which character
/// it is.
#[verifier::external_body]
fn main_separator() -> (separator: char) {
    std::path::MAIN_SEPARATOR
}

/// Takes `part` out of `full` and returns a path without leading separators,
/// for the separator of this machine: `/tmp/path/is/a/lie` less `/tmp/path`
/// is `is/a/lie`.
pub fn path_subtract(full: &str, part: &str) -> (path: String)
    ensures
        exists|separator: char| path@ == #[trigger] relative(full@, part@, separator),
{
    relativize(full, part, main_separator())
}

} // verus!
