//! Page paths, all relative to the root of the manual, and the links made from them.

use crate::arg::InputOpts;
use crate::sorted::{ascending, has_key, Sorted};
use crate::text::{append, append_str, chars_of, has_sub, opt_view, slice_of, str_contains, string_of};
use vstd::prelude::*;

verus! {

/// The root directory of the manual: the input path of the run.
pub fn base_path(opts: &InputOpts) -> (r: String)
    ensures
        r@ == opts.input_path@,
{
    opts.input_path.clone()
}

/// The address under which the manual is published.
pub open spec fn manual_base() -> Seq<char> {
    "https://manual.yoyogames.com/"@
}

/// `rel` adjoined to the directory `dir`.
///
/// A `rel` that begins with `/` stands alone. Otherwise one `/` separates the two, unless
/// `dir` is empty or ends with one already.
pub open spec fn joined(dir: Seq<char>, rel: Seq<char>) -> Seq<char> {
    if rel.len() > 0 && rel[0] == '/' {
        rel
    } else if dir.len() == 0 || dir.last() == '/' {
        dir + rel
    } else {
        dir + seq!['/'] + rel
    }
}

/// `rel` adjoined to the directory `dir`.
pub fn join_path(dir: &str, rel: &str) -> (r: String)
    ensures
        r@ == joined(dir@, rel@),
{
    let d = chars_of(dir);
    let t = chars_of(rel);
    if t.len() > 0 && t[0] == '/' {
        return string_of(&t);
    }
    let mut out: Vec<char> = d;
    if out.len() > 0 && out[out.len() - 1] != '/' {
        out.push('/');
    }
    append(&mut out, &t);
    string_of(&out)
}

/// The index of the last `/` of `path`, or -1 where it has none.
pub open spec fn last_slash(path: Seq<char>) -> int
    decreases path.len(),
{
    if path.len() == 0 {
        -1
    } else if path.last() == '/' {
        path.len() - 1
    } else {
        last_slash(path.drop_last())
    }
}

/// The directory of the file at `path`: what stands before its last `/`, or nothing.
pub open spec fn directory_of(path: Seq<char>) -> Seq<char> {
    if last_slash(path) < 0 {
        Seq::empty()
    } else {
        path.take(last_slash(path))
    }
}

proof fn lemma_last_slash(path: Seq<char>, i: int)
    requires
        -1 <= i < path.len(),
        i >= 0 ==> path[i] == '/',
        forall|j: int| i < j < path.len() ==> path[j] != '/',
    ensures
        last_slash(path) == i,
    decreases path.len(),
{
    if path.len() > 0 && i < path.len() - 1 {
        let front = path.drop_last();
        assert forall|j: int| i < j < front.len() implies front[j] != '/' by {
            assert(front[j] == path[j]);
        }
        lemma_last_slash(front, i);
    }
}

/// The directory of the file at `path`.
pub fn parent_dir(path: &str) -> (r: String)
    ensures
        r@ == directory_of(path@),
{
    let p = chars_of(path);
    let mut i: usize = p.len();
    while i > 0 && p[i - 1] != '/'
        invariant
            i <= p.len(),
            forall|j: int| i <= j < p.len() ==> p@[j] != '/',
        decreases i,
    {
        i -= 1;
    }
    proof {
        lemma_last_slash(p@, i - 1);
    }
    if i == 0 {
        String::new()
    } else {
        let mut out: Vec<char> = Vec::new();
        let mut k: usize = 0;
        while k < i - 1
            invariant
                k <= i - 1 < p.len(),
                out@ == p@.take(k as int),
            decreases i - 1 - k,
        {
            out.push(p[k]);
            k += 1;
            assert(p@.take(k as int) == p@.take(k - 1).push(p@[k - 1]));
        }
        string_of(&out)
    }
}

/// The canonical form of the URL `text`, where `text` is an absolute URL.
pub uninterp spec fn canonical_url(text: Seq<char>) -> Option<Seq<char>>;

/// Parses an absolute URL and writes it out again.
///
/// Calls `url::Url::parse` and takes the serialization of what it returns: the result is
/// the canonical form of `text`, or `None` where the parser refuses `text`. It depends on
/// `text` alone.
#[verifier::external_body]
pub(crate) fn parse_url(text: &str) -> (r: Option<String>)
    ensures
        opt_view(r) == canonical_url(text@),
{
    url::Url::parse(text).ok().map(String::from)
}

/// The published address of the file at `path`, where one can be made.
pub open spec fn link_of(path: Seq<char>) -> Option<Seq<char>> {
    canonical_url(manual_base() + path)
}

/// The published address of the file at `path`.
///
/// Returns `None` where the base address followed by `path` is no URL.
pub fn convert_to_url(path: &str) -> (r: Option<String>)
    ensures
        opt_view(r) == link_of(path@),
{
    let mut text = chars_of("https://manual.yoyogames.com/");
    let tail = chars_of(path);
    append(&mut text, &tail);
    let whole = string_of(&text);
    parse_url(whole.as_str())
}

/// Whether `c` is an upper-case letter as Unicode defines one.
pub uninterp spec fn is_upper(c: char) -> bool;

/// Whether `c` is an upper-case letter.
///
/// Wraps `char::is_uppercase`: the result says whether `c` has the Unicode property
/// `Uppercase`.
#[verifier::external_body]
pub(crate) fn is_uppercase(c: char) -> (r: bool)
    ensures
        r == is_upper(c),
{
    c.is_uppercase()
}

/// Whether `s` holds an upper-case letter.
pub open spec fn has_upper(s: Seq<char>) -> bool {
    exists|i: int| 0 <= i < s.len() && is_upper(#[trigger] s[i])
}

/// Whether `s` holds an upper-case letter.
pub fn contains_uppercase(s: &Vec<char>) -> (r: bool)
    ensures
        r == has_upper(s@),
{
    let mut i: usize = 0;
    while i < s.len()
        invariant
            i <= s.len(),
            forall|j: int| 0 <= j < i ==> !is_upper(#[trigger] s@[j]),
        decreases s.len() - i,
    {
        if is_uppercase(s[i]) {
            return true;
        }
        i += 1;
    }
    false
}

/// The name of the file at `path`: what stands after its last `/`.
pub open spec fn file_name_of(path: Seq<char>) -> Seq<char> {
    path.skip(last_slash(path) + 1)
}

/// The index of the last `.` of `name`, or -1 where it has none.
pub open spec fn last_dot(name: Seq<char>) -> int
    decreases name.len(),
{
    if name.len() == 0 {
        -1
    } else if name.last() == '.' {
        name.len() - 1
    } else {
        last_dot(name.drop_last())
    }
}

proof fn lemma_last_dot(name: Seq<char>, i: int)
    requires
        -1 <= i < name.len(),
        i >= 0 ==> name[i] == '.',
        forall|j: int| i < j < name.len() ==> name[j] != '.',
    ensures
        last_dot(name) == i,
    decreases name.len(),
{
    if name.len() > 0 && i < name.len() - 1 {
        let front = name.drop_last();
        assert forall|j: int| i < j < front.len() implies front[j] != '.' by {
            assert(front[j] == name[j]);
        }
        lemma_last_dot(front, i);
    }
}

/// `path` with the extension of its file name replaced by `htm`.
///
/// The extension is what follows the last `.` of the file name, unless the name begins
/// with that `.`; a name without extension gets one. A path without file name, and one
/// that ends in `..`, stays as it is.
pub open spec fn page_path(path: Seq<char>) -> Seq<char> {
    let start = last_slash(path) + 1;
    let name = file_name_of(path);
    let dot = last_dot(name);
    if name.len() == 0 || name == seq!['.', '.'] {
        path
    } else if dot <= 0 {
        path + ".htm"@
    } else {
        path.take(start + dot) + ".htm"@
    }
}

/// Where the file name of `path` begins.
fn name_start(p: &Vec<char>) -> (r: usize)
    ensures
        r == last_slash(p@) + 1,
        r <= p.len(),
{
    let mut i: usize = p.len();
    while i > 0 && p[i - 1] != '/'
        invariant
            i <= p.len(),
            forall|j: int| i <= j < p.len() ==> p@[j] != '/',
        decreases i,
    {
        i -= 1;
    }
    proof {
        lemma_last_slash(p@, i - 1);
    }
    i
}

/// `path` with the extension of its file name replaced by `htm`.
pub fn force_extension(path: &str) -> (r: String)
    ensures
        r@ == page_path(path@),
{
    let p = chars_of(path);
    let start = name_start(&p);
    let name = slice_of(&p, start, p.len());
    assert(name@ == file_name_of(p@));
    if name.len() == 0 || (name.len() == 2 && name[0] == '.' && name[1] == '.') {
        assert(name.len() == 2 && name@[0] == '.' && name@[1] == '.' ==> name@ =~= seq!['.', '.']);
        return string_of(&p);
    }
    let mut d: usize = name.len();
    while d > 0 && name[d - 1] != '.'
        invariant
            d <= name.len(),
            forall|j: int| d <= j < name.len() ==> name@[j] != '.',
        decreases d,
    {
        d -= 1;
    }
    proof {
        lemma_last_dot(name@, d - 1);
    }
    let mut out = if d <= 1 {
        p
    } else {
        let kept = slice_of(&p, 0, start + (d - 1));
        assert(kept@ == p@.take(start + (d - 1)));
        kept
    };
    append_str(&mut out, ".htm");
    string_of(&out)
}

/// The folder that every page of the reference lies under.
pub open spec fn reference_marker() -> Seq<char> {
    "GameMaker_Language/GML_Reference"@
}

/// Whether the index entry with the keyword `keyword` and the path `path` names a page of
/// the reference: neither the keyword nor the file name holds an upper-case letter, and
/// the path lies under the reference folder.
pub open spec fn is_page_entry(keyword: Seq<char>, path: Seq<char>) -> bool {
    !has_upper(keyword) && !has_upper(file_name_of(path)) && has_sub(path, reference_marker())
}

/// Whether an index entry names a page of the reference.
pub fn keeps_entry(keyword: &str, path: &str) -> (r: bool)
    ensures
        r == is_page_entry(keyword@, path@),
{
    let k = chars_of(keyword);
    if contains_uppercase(&k) {
        return false;
    }
    let p = chars_of(path);
    let start = name_start(&p);
    let name = slice_of(&p, start, p.len());
    if contains_uppercase(&name) {
        return false;
    }
    str_contains(path, "GameMaker_Language/GML_Reference")
}

/// The keyword and the path of each entry of `v`, as sequences of characters.
pub open spec fn entries_of(v: Seq<(String, String)>) -> Seq<(Seq<char>, Seq<char>)> {
    Seq::new(v.len(), |i: int| (v[i].0@, v[i].1@))
}

/// Whether `page` is the path of a page that one of `entries` names.
pub open spec fn is_listed(entries: Seq<(Seq<char>, Seq<char>)>, page: Seq<char>) -> bool {
    exists|i: int|
        0 <= i < entries.len() && is_page_entry((#[trigger] entries[i]).0, entries[i].1) && page_path(
            entries[i].1,
        ) == page
}

/// The strings of `v`, each as a sequence of characters.
pub open spec fn strings_of(v: Seq<String>) -> Seq<Seq<char>> {
    Seq::new(v.len(), |i: int| v[i]@)
}

/// Whether `pages` stand in strictly ascending order.
pub open spec fn strictly_ascending(pages: Seq<Seq<char>>) -> bool {
    forall|i: int, j: int|
        0 <= i < j < pages.len() ==> crate::text::lex_lt(#[trigger] pages[i], #[trigger] pages[j])
}

/// The paths of the pages that `entries` name, each once, in ascending order.
pub fn select_pages(entries: &Vec<(String, String)>) -> (r: Vec<String>)
    ensures
        strictly_ascending(strings_of(r@)),
        forall|page: Seq<char>|
            strings_of(r@).contains(page) <==> is_listed(entries_of(entries@), page),
{
    let mut pages: Sorted<bool> = Sorted::new();
    let mut i: usize = 0;
    proof {
        crate::sorted::lemma_as_map(pages.entries@);
    }
    while i < entries.len()
        invariant
            i <= entries.len(),
            pages.wf(),
            forall|page: Seq<char>|
                pages.map().contains_key(page) <==> is_listed(entries_of(entries@).take(i as int), page),
        decreases entries.len() - i,
    {
        let ghost seen = entries_of(entries@).take(i as int);
        let ghost next = entries_of(entries@).take(i + 1);
        let ghost before = pages.map();
        let entry = &entries[i];
        let keep = keeps_entry(entry.0.as_str(), entry.1.as_str());
        if keep {
            let page = force_extension(entry.1.as_str());
            pages.insert(page, true);
        }
        proof {
            assert(next[i as int] == (entry.0@, entry.1@));
            assert forall|page: Seq<char>| pages.map().contains_key(page) <==> is_listed(next, page) by {
                if is_listed(seen, page) {
                    let j = choose|j: int|
                        0 <= j < seen.len() && is_page_entry((#[trigger] seen[j]).0, seen[j].1)
                            && page_path(seen[j].1) == page;
                    assert(next[j] == seen[j]);
                }
                if is_listed(next, page) {
                    let j = choose|j: int|
                        0 <= j < next.len() && is_page_entry((#[trigger] next[j]).0, next[j].1)
                            && page_path(next[j].1) == page;
                    if j < i {
                        assert(seen[j] == next[j]);
                        assert(is_listed(seen, page));
                    }
                }
                if keep && page == page_path(entry.1@) {
                    assert(is_page_entry(next[i as int].0, next[i as int].1));
                }
            }
        }
        i += 1;
    }
    assert(entries_of(entries@).take(entries.len() as int) == entries_of(entries@));
    let mut out: Vec<String> = Vec::new();
    let mut k: usize = 0;
    while k < pages.entries.len()
        invariant
            k <= pages.entries@.len(),
            out@.len() == k,
            forall|j: int| 0 <= j < k ==> #[trigger] out@[j]@ == pages.entries@[j].0@,
        decreases pages.entries.len() - k,
    {
        out.push(pages.entries[k].0.clone());
        k += 1;
    }
    proof {
        crate::sorted::lemma_as_map(pages.entries@);
        let listed = strings_of(out@);
        assert forall|a: int, b: int| 0 <= a < b < listed.len() implies crate::text::lex_lt(
            #[trigger] listed[a],
            #[trigger] listed[b],
        ) by {
            assert(crate::text::lex_lt(pages.entries@[a].0@, pages.entries@[b].0@));
        }
        assert forall|page: Seq<char>| listed.contains(page) <==> is_listed(
            entries_of(entries@),
            page,
        ) by {
            assert(pages.map().contains_key(page) <==> has_key(pages.entries@, page));
            assert(pages.map().contains_key(page) <==> is_listed(entries_of(entries@), page));
            if listed.contains(page) {
                let j = choose|j: int| 0 <= j < listed.len() && listed[j] == page;
                assert(pages.entries@[j].0@ == page);
                assert(has_key(pages.entries@, page));
            }
            if has_key(pages.entries@, page) {
                let j = choose|j: int| 0 <= j < pages.entries@.len() && #[trigger] pages.entries@[j].0@ == page;
                assert(listed[j] == page);
                assert(listed.contains(page));
            }
        }
    }
    out
}

/// The entries of the keyword index with the text `text`, in the order of their keywords;
/// `None` where the text is no index.
pub uninterp spec fn index_entries(text: Seq<char>) -> Option<Seq<(Seq<char>, Seq<char>)>>;

/// The views of optional index entries.
pub open spec fn opt_entries(v: Option<Vec<(String, String)>>) -> Option<Seq<(Seq<char>, Seq<char>)>> {
    match v {
        Some(e) => Some(entries_of(e@)),
        None => None,
    }
}

/// Reads a keyword index.
///
/// Calls `serde_json::from_str` for a map from strings to strings and lists its entries:
/// the result is what that parser makes of `text`, or `None` where it refuses `text`. It
/// depends on `text` alone.
#[verifier::external_body]
pub(crate) fn read_index(text: &str) -> (r: Option<Vec<(String, String)>>)
    ensures
        opt_entries(r) == index_entries(text@),
{
    serde_json::from_str::<std::collections::BTreeMap<String, String>>(text).ok().map(|m| m.into_iter().collect())
}

/// The paths of the pages that the keyword index with the text `index` names, each once
/// and in ascending order; `None` where the text is no index.
pub fn parse_fnames(index: &str) -> (r: Option<Vec<String>>)
    ensures
        r is Some <==> index_entries(index@) is Some,
        match r {
            Some(pages) => {
                &&& strictly_ascending(strings_of(pages@))
                &&& forall|page: Seq<char>|
                    strings_of(pages@).contains(page) <==> is_listed(index_entries(index@)->0, page)
            },
            None => true,
        },
{
    match read_index(index) {
        Some(entries) => Some(select_pages(&entries)),
        None => None,
    }
}

} // verus!
