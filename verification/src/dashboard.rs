//! The content type the dashboard's static files are served with.

use crate::consumer::last_index;
use crate::text::chars_of;
use vstd::prelude::*;

verus! {

/// The extension of `path`: what follows its last `.`, or the whole path
/// when it has none.
pub open spec fn extension(path: Seq<char>) -> Seq<char> {
    match last_index(path, '.') {
        Some(i) => path.skip(i as int + 1),
        None => path,
    }
}

/// The content type for a file with extension `ext`.
pub open spec fn content_type_of(ext: Seq<char>) -> Seq<char> {
    if ext == "html"@ {
        "text/html; charset=utf-8"@
    } else if ext == "js"@ {
        "application/javascript"@
    } else if ext == "css"@ {
        "text/css"@
    } else if ext == "svg"@ {
        "image/svg+xml"@
    } else if ext == "png"@ {
        "image/png"@
    } else if ext == "ico"@ {
        "image/x-icon"@
    } else if ext == "json"@ {
        "application/json"@
    } else if ext == "woff2"@ {
        "font/woff2"@
    } else if ext == "woff"@ {
        "font/woff"@
    } else if ext == "txt"@ {
        "text/plain"@
    } else {
        "application/octet-stream"@
    }
}

proof fn lemma_last_index_found(s: Seq<char>, c: char, i: int)
    requires
        0 <= i < s.len(),
        s[i] == c,
        forall|j: int| i < j < s.len() ==> s[j] != c,
    ensures
        last_index(s, c) == Some(i as nat),
    decreases s.len(),
{
    if s.last() != c {
        lemma_last_index_found(s.drop_last(), c, i);
    }
}

proof fn lemma_last_index_absent(s: Seq<char>, c: char)
    requires
        forall|j: int| 0 <= j < s.len() ==> s[j] != c,
    ensures
        last_index(s, c) is None,
    decreases s.len(),
{
    if s.len() > 0 {
        lemma_last_index_absent(s.drop_last(), c);
    }
}

/// Whether `cs[from..]` spells `word`.
fn tail_is(cs: &Vec<char>, from: usize, word: &str) -> (r: bool)
    requires
        from <= cs@.len(),
    ensures
        r == (cs@.skip(from as int) == word@),
{
    let w = chars_of(word);
    if cs.len() - from != w.len() {
        assert(cs@.skip(from as int).len() != word@.len());
        return false;
    }
    let n = cs.len();
    let mut i: usize = 0;
    while i < w.len()
        invariant
            n == cs@.len(),
            w@ == word@,
            cs@.len() - from == w@.len(),
            from <= cs@.len(),
            i <= w@.len(),
            forall|j: int| 0 <= j < i ==> cs@[from + j] == w@[j],
        decreases w@.len() - i,
    {
        if cs[from + i] != w[i] {
            assert(cs@.skip(from as int)[i as int] != word@[i as int]);
            return false;
        }
        i = i + 1;
    }
    assert(cs@.skip(from as int) =~= word@);
    true
}

/// The content type for `path`, by its extension.
pub fn content_type(path: &str) -> (r: &'static str)
    ensures
        r@ == content_type_of(extension(path@)),
{
    let cs = chars_of(path);
    let mut i = cs.len();
    while i > 0 && cs[i - 1] != '.'
        invariant
            i <= cs@.len(),
            cs@ == path@,
            forall|j: int| i <= j < cs@.len() ==> cs@[j] != '.',
        decreases i,
    {
        i = i - 1;
    }
    let from = if i == 0 {
        proof {
            lemma_last_index_absent(path@, '.');
        }
        assert(path@.skip(0) =~= path@);
        0
    } else {
        proof {
            lemma_last_index_found(path@, '.', i - 1);
        }
        i
    };
    if tail_is(&cs, from, "html") {
        "text/html; charset=utf-8"
    } else if tail_is(&cs, from, "js") {
        "application/javascript"
    } else if tail_is(&cs, from, "css") {
        "text/css"
    } else if tail_is(&cs, from, "svg") {
        "image/svg+xml"
    } else if tail_is(&cs, from, "png") {
        "image/png"
    } else if tail_is(&cs, from, "ico") {
        "image/x-icon"
    } else if tail_is(&cs, from, "json") {
        "application/json"
    } else if tail_is(&cs, from, "woff2") {
        "font/woff2"
    } else if tail_is(&cs, from, "woff") {
        "font/woff"
    } else if tail_is(&cs, from, "txt") {
        "text/plain"
    } else {
        "application/octet-stream"
    }
}

} // verus!
