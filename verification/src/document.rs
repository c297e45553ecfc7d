//! The page bookkeeping of a loaded document: its page count, the pages
//! that may be asked for, its full text and the names of exported pages.

use vstd::prelude::*;

use crate::error::Error;
use crate::text::{
    decimal, is_whitespace_char, lemma_decimal_injective, lemma_trim_ends, push_decimal, trim,
    trim_whitespace,
};

verus! {

/// Accept the page count of a freshly opened document: a document without
/// pages is refused.
pub fn validate_page_count(count: usize) -> (r: Result<usize, Error>)
    ensures
        count == 0 ==> r == Err::<usize, Error>(Error::EmptyDocument),
        count > 0 ==> r == Ok::<usize, Error>(count),
{
    if count == 0 {
        return Err(Error::EmptyDocument);
    }
    Ok(count)
}

/// Check that page `index` exists in a document of `count` pages.
pub fn check_page_index(index: usize, count: usize) -> (r: Result<(), Error>)
    ensures
        index < count ==> r is Ok,
        index >= count ==> r == Err::<(), Error>(Error::PageOutOfRange { index, count }),
{
    if index >= count {
        return Err(Error::PageOutOfRange { index, count });
    }
    Ok(())
}

/// The separator between the texts of two pages.
pub open spec fn page_separator() -> Seq<char> {
    seq!['\n', '\n']
}

/// The document text `acc` after adding the text of the next page: the
/// page's text without its leading and trailing whitespace, after a blank
/// line unless it is the first; a page without text adds nothing.
pub open spec fn with_page_text(acc: Seq<char>, text: Seq<char>) -> Seq<char> {
    let t = trim(text);
    if t.len() == 0 {
        acc
    } else if acc.len() == 0 {
        t
    } else {
        acc + page_separator() + t
    }
}

/// The text of a document whose pages have the texts `texts`, in order.
pub open spec fn document_text(texts: Seq<Seq<char>>) -> Seq<char>
    decreases texts.len(),
{
    if texts.len() == 0 {
        Seq::empty()
    } else {
        with_page_text(document_text(texts.drop_last()), texts.last())
    }
}

/// The views of a sequence of strings.
pub open spec fn texts_view(texts: Seq<String>) -> Seq<Seq<char>> {
    texts.map_values(|t: String| t@)
}

/// Add the text of the next page to the document text `out`.
fn append_page_text(out: &mut String, text: &str)
    ensures
        final(out)@ == with_page_text(old(out)@, text@),
{
    let t = trim_whitespace(text);
    if !t.is_empty() {
        if !out.as_str().is_empty() {
            proof {
                reveal_strlit("\n\n");
            }
            out.append("\n\n");
        }
        out.append(t);
    }
}

/// The plain text of a whole document from the texts of its pages, one
/// trimmed block per page, joined by double newlines. Pages without text
/// add nothing.
pub fn join_page_texts(texts: &[String]) -> (out: String)
    ensures
        out@ == document_text(texts_view(texts@)),
{
    let mut out = String::new();
    let n: usize = texts.len();
    let mut k: usize = 0;
    while k < n
        invariant
            n == texts@.len(),
            k <= n,
            out@ == document_text(texts_view(texts@.take(k as int))),
        decreases n - k,
    {
        append_page_text(&mut out, texts[k].as_str());
        assert(texts_view(texts@.take(k + 1)).drop_last() =~= texts_view(texts@.take(k as int)));
        k = k + 1;
    }
    assert(texts@.take(n as int) =~= texts@);
    out
}

/// The file name of page `index` of an export of every page:
/// `<prefix>-<index>.png`.
pub open spec fn page_png_name(prefix: Seq<char>, index: nat) -> Seq<char> {
    prefix + "-"@ + decimal(index) + ".png"@
}

/// The file name of page `index` of an export of every page:
/// `<prefix>-<index>.png`.
pub fn page_png_path(prefix: &str, index: usize) -> (path: String)
    ensures
        path@ == page_png_name(prefix@, index as nat),
{
    let mut path = String::from_str(prefix);
    path.append("-");
    push_decimal(&mut path, index);
    path.append(".png");
    path
}

/// A document's text neither starts nor ends with whitespace.
pub proof fn lemma_document_text_trimmed(texts: Seq<Seq<char>>)
    ensures
        ({
            let d = document_text(texts);
            d.len() > 0 ==> !is_whitespace_char(d[0]) && !is_whitespace_char(d.last())
        }),
    decreases texts.len(),
{
    if texts.len() > 0 {
        lemma_document_text_trimmed(texts.drop_last());
        lemma_trim_ends(texts.last());
        let acc = document_text(texts.drop_last());
        let t = trim(texts.last());
        if t.len() > 0 && acc.len() > 0 {
            assert((acc + page_separator() + t)[0] == acc[0]);
            assert((acc + page_separator() + t).last() == t.last());
        }
    }
}

/// A page without text (nothing but whitespace) adds nothing to the
/// document's text; a page with text adds its trimmed text at the end.
pub proof fn lemma_page_text_added(texts: Seq<Seq<char>>, text: Seq<char>)
    ensures
        trim(text).len() == 0 ==> document_text(texts.push(text)) == document_text(texts),
        trim(text).len() > 0 ==> document_text(texts.push(text)).len() >= trim(text).len(),
        trim(text).len() > 0 ==> document_text(texts.push(text)).subrange(
            document_text(texts.push(text)).len() - trim(text).len(),
            document_text(texts.push(text)).len() as int,
        ) == trim(text),
{
    let acc = document_text(texts);
    let t = trim(text);
    assert(texts.push(text).drop_last() =~= texts);
    if t.len() > 0 && acc.len() > 0 {
        let d = acc + page_separator() + t;
        assert(d.subrange(d.len() - t.len(), d.len() as int) =~= t);
    }
    if t.len() > 0 && acc.len() == 0 {
        assert(t.subrange(0, t.len() as int) =~= t);
    }
}

/// Different pages of an export get different file names.
pub proof fn lemma_page_png_names_distinct(prefix: Seq<char>, a: nat, b: nat)
    requires
        a != b,
    ensures
        page_png_name(prefix, a) != page_png_name(prefix, b),
{
    if page_png_name(prefix, a) == page_png_name(prefix, b) {
        let na = page_png_name(prefix, a);
        let nb = page_png_name(prefix, b);
        let start = prefix.len() + 1;
        let png = ".png"@;
        reveal_strlit("-");
        assert(decimal(a) =~= na.subrange(start as int, na.len() - png.len()));
        assert(decimal(b) =~= nb.subrange(start as int, nb.len() - png.len()));
        lemma_decimal_injective(a, b);
    }
}

} // verus!
