//! The scraper module is meant to centralize scraping utilities: it turns
//! the text of a names page into a cleaned-up list of lowercase names.
//!
//! The page is scanned for the cells that hold names ("tr td b a"); each
//! cell's inner markup is then cleaned: the escapes "&lt;" and "&gt;" become
//! angle brackets, everything non-alphabetic is dropped, and the rest is
//! ascii-lower-cased.
use crate::markov_chain::spec_lower;
use vstd::prelude::*;

verus! {

/// Leftmost, non-overlapping replacement of `pat` by `rep` throughout `s`
/// (as str::replace does it).
pub open spec fn replace_all(s: Seq<char>, pat: Seq<char>, rep: Seq<char>) -> Seq<char>
    decreases s.len(),
{
    if pat.len() == 0 {
        s
    } else if s.len() < pat.len() {
        s
    } else if s.subrange(0, pat.len() as int) == pat {
        rep + replace_all(s.skip(pat.len() as int), pat, rep)
    } else {
        seq![s[0]] + replace_all(s.skip(1), pat, rep)
    }
}

/// What char::is_alphabetic holds of a character.
pub uninterp spec fn is_alpha(c: char) -> bool;

/// Relies on char::is_alphabetic: a property of the character alone.
#[verifier::external_body]
fn char_is_alphabetic(c: char) -> (r: bool)
    ensures
        r == is_alpha(c),
{
    c.is_alphabetic()
}

/// Relies on char::to_ascii_lowercase: 'A' to 'Z' map to 'a' to 'z', every
/// other character is returned unchanged.
#[verifier::external_body]
fn to_lower(c: char) -> (r: char)
    ensures
        r == spec_lower(c),
{
    c.to_ascii_lowercase()
}

/// Keep only the alphabetic characters, each ascii-lower-cased.
pub open spec fn clean_chars(s: Seq<char>) -> Seq<char>
    decreases s.len(),
{
    if s.len() == 0 {
        Seq::empty()
    } else {
        (if is_alpha(s[0]) {
            seq![spec_lower(s[0])]
        } else {
            Seq::<char>::empty()
        }) + clean_chars(s.skip(1))
    }
}

/// The full cleanup of one scraped cell.
pub open spec fn clean_name(s: Seq<char>) -> Seq<char> {
    clean_chars(
        replace_all(
            replace_all(s, seq!['&', 'l', 't', ';'], seq!['<']),
            seq!['&', 'g', 't', ';'],
            seq!['>'],
        ),
    )
}

/// The inner markup of each name cell of the page, in document order.
pub uninterp spec fn page_name_cells(html: Seq<char>) -> Seq<Seq<char>>;

/// Relies on scraper::Html::parse_document, scraper::Selector::parse and
/// scraper::ElementRef::inner_html: the inner markup of every element the
/// page holds under "tr td b a", in document order — a function of the page
/// text alone.
#[verifier::external_body]
fn select_name_cells(html_text: &str) -> (r: Vec<String>)
    ensures
        r.deep_view() == page_name_cells(html_text@),
{
    let document = scraper::Html::parse_document(html_text);
    let selector = scraper::Selector::parse("tr td b a").unwrap();
    document.select(&selector).map(|element| element.inner_html()).collect()
}

/// Whether `pat` starts at `s[i]`.
fn matches_at(s: &Vec<char>, pat: &Vec<char>, i: usize) -> (r: bool)
    requires
        i + pat@.len() <= s@.len(),
    ensures
        r == (s@.subrange(i as int, i + pat@.len()) == pat@),
{
    let slen = s.len();
    let mut j: usize = 0;
    while j < pat.len()
        invariant
            j <= pat@.len(),
            i + pat@.len() <= s@.len(),
            s@.len() == slen,
            forall|k: int| 0 <= k < j ==> s@[i + k] == pat@[k],
        decreases pat@.len() - j,
    {
        if s[i + j] != pat[j] {
            proof {
                assert(s@.subrange(i as int, i + pat@.len())[j as int] != pat@[j as int]);
            }
            return false;
        }
        j += 1;
    }
    proof {
        assert(s@.subrange(i as int, i + pat@.len()) =~= pat@);
    }
    true
}

/// Replace every leftmost, non-overlapping occurrence of `pat` by `rep`.
fn replace_seq(s: &Vec<char>, pat: &Vec<char>, rep: &Vec<char>) -> (r: Vec<char>)
    requires
        pat@.len() >= 1,
    ensures
        r@ == replace_all(s@, pat@, rep@),
{
    let mut out: Vec<char> = Vec::new();
    let mut i: usize = 0;
    proof {
        assert(s@.skip(0) =~= s@);
    }
    while i < s.len()
        invariant
            i <= s@.len(),
            pat@.len() >= 1,
            replace_all(s@, pat@, rep@) == out@ + replace_all(s@.skip(i as int), pat@, rep@),
        decreases s@.len() - i,
    {
        let ghost rest = s@.skip(i as int);
        if pat.len() <= s.len() - i && matches_at(s, pat, i) {
            proof {
                assert(rest.subrange(0, pat@.len() as int) =~= s@.subrange(
                    i as int,
                    i + pat@.len(),
                ));
                assert(rest.skip(pat@.len() as int) =~= s@.skip(i + pat@.len()));
            }
            let mut j: usize = 0;
            let ghost before = out@;
            while j < rep.len()
                invariant
                    j <= rep@.len(),
                    out@ == before + rep@.subrange(0, j as int),
                decreases rep@.len() - j,
            {
                out.push(rep[j]);
                proof {
                    assert(out@ =~= before + rep@.subrange(0, j + 1));
                }
                j += 1;
            }
            proof {
                assert(out@ =~= before + rep@);
                assert(before + rep@ + replace_all(s@.skip(i + pat@.len()), pat@, rep@)
                    =~= before + (rep@ + replace_all(s@.skip(i + pat@.len()), pat@, rep@)));
            }
            i += pat.len();
        } else {
            proof {
                if i + pat@.len() <= s@.len() {
                    assert(rest.subrange(0, pat@.len() as int) =~= s@.subrange(
                        i as int,
                        i + pat@.len(),
                    ));
                } else {
                    assert(rest.len() < pat@.len());
                }
                assert(rest.skip(1) =~= s@.skip(i + 1));
                assert(rest[0] == s@[i as int]);
            }
            let ghost before = out@;
            out.push(s[i]);
            proof {
                assert(out@ =~= before + seq![s@[i as int]]);
                assert(before + seq![s@[i as int]] + replace_all(s@.skip(i + 1), pat@, rep@)
                    =~= before + (seq![s@[i as int]] + replace_all(s@.skip(i + 1), pat@, rep@)));
            }
            i += 1;
        }
    }
    proof {
        assert(s@.skip(s@.len() as int) =~= Seq::<char>::empty());
        assert(replace_all(Seq::<char>::empty(), pat@, rep@) == Seq::<char>::empty());
        assert(out@ + Seq::<char>::empty() =~= out@);
    }
    out
}

/// Keep only alphabetic characters, ascii-lower-cased.
fn clean_vec(s: &Vec<char>) -> (r: Vec<char>)
    ensures
        r@ == clean_chars(s@),
{
    let mut out: Vec<char> = Vec::new();
    let mut i: usize = 0;
    proof {
        assert(s@.skip(0) =~= s@);
    }
    while i < s.len()
        invariant
            i <= s@.len(),
            clean_chars(s@) == out@ + clean_chars(s@.skip(i as int)),
        decreases s@.len() - i,
    {
        let ghost rest = s@.skip(i as int);
        proof {
            assert(rest[0] == s@[i as int]);
            assert(rest.skip(1) =~= s@.skip(i + 1));
        }
        let ghost before = out@;
        let c = s[i];
        if char_is_alphabetic(c) {
            out.push(to_lower(c));
            proof {
                assert(out@ =~= before + seq![spec_lower(s@[i as int])]);
                assert(before + seq![spec_lower(s@[i as int])] + clean_chars(s@.skip(i + 1))
                    =~= before + (seq![spec_lower(s@[i as int])] + clean_chars(s@.skip(i + 1))));
            }
        } else {
            proof {
                assert(before + Seq::<char>::empty() + clean_chars(s@.skip(i + 1)) =~= before + (
                Seq::<char>::empty() + clean_chars(s@.skip(i + 1))));
            }
        }
        i += 1;
    }
    proof {
        assert(s@.skip(s@.len() as int) =~= Seq::<char>::empty());
        assert(clean_chars(Seq::<char>::empty()) == Seq::<char>::empty());
        assert(out@ + Seq::<char>::empty() =~= out@);
    }
    out
}

/// The cleanup of one scraped cell: unescape "&lt;" and "&gt;", keep only
/// alphabetic characters, ascii-lower-case them.
pub fn clean_scraped_cell(cell: &str) -> (r: String)
    ensures
        r@ == clean_name(cell@),
{
    let cell_chars = crate::markov_chain::str_chars(cell);
    let mut pat_lt: Vec<char> = Vec::new();
    pat_lt.push('&');
    pat_lt.push('l');
    pat_lt.push('t');
    pat_lt.push(';');
    let mut pat_gt: Vec<char> = Vec::new();
    pat_gt.push('&');
    pat_gt.push('g');
    pat_gt.push('t');
    pat_gt.push(';');
    let mut rep_lt: Vec<char> = Vec::new();
    rep_lt.push('<');
    let mut rep_gt: Vec<char> = Vec::new();
    rep_gt.push('>');
    proof {
        assert(pat_lt@ =~= seq!['&', 'l', 't', ';']);
        assert(pat_gt@ =~= seq!['&', 'g', 't', ';']);
        assert(rep_lt@ =~= seq!['<']);
        assert(rep_gt@ =~= seq!['>']);
    }
    let unescaped = replace_seq(&replace_seq(&cell_chars, &pat_lt, &rep_lt), &pat_gt, &rep_gt);
    let cleaned = clean_vec(&unescaped);
    crate::markov_chain::chars_to_string(&cleaned)
}

/// Scrap all celtic names from a HTML page text.
pub fn find_names_in_html(html_text: String) -> (r: Vec<String>)
    ensures
        r.deep_view().len() == page_name_cells(html_text@).len(),
        forall|i: int|
            0 <= i < r.deep_view().len() ==> r.deep_view()[i] == clean_name(
                #[trigger] page_name_cells(html_text@)[i],
            ),
{
    let cells = select_name_cells(html_text.as_str());
    let ghost cell_views = page_name_cells(html_text@);
    let mut names: Vec<String> = Vec::new();
    let mut i: usize = 0;
    while i < cells.len()
        invariant
            i <= cells@.len(),
            cells.deep_view() == cell_views,
            cells@.len() == cell_views.len(),
            names@.len() == i,
            forall|k: int| 0 <= k < i ==> (#[trigger] names@[k])@ == clean_name(cell_views[k]),
        decreases cells@.len() - i,
    {
        proof {
            assert(cells.deep_view()[i as int] == cells@[i as int]@);
        }
        let name = clean_scraped_cell(cells[i].as_str());
        proof {
            assert(name@ == clean_name(cell_views[i as int]));
        }
        names.push(name);
        i += 1;
    }
    proof {
        assert forall|k: int| 0 <= k < names.deep_view().len() implies names.deep_view()[k]
            == clean_name(#[trigger] cell_views[k]) by {
            assert(names.deep_view()[k] == names@[k]@);
        }
    }
    names
}

/// The names of a fetched page, if one was fetched: the caller hands in the
/// page text (fetching it is I/O and lives outside the library).
pub fn find_names_in_page(page_text: Option<String>) -> (r: Option<Vec<String>>)
    ensures
        r is Some <==> page_text is Some,
        r is Some ==> {
            let names = r->0;
            let html = page_text->0;
            &&& names.deep_view().len() == page_name_cells(html@).len()
            &&& forall|i: int|
                0 <= i < names.deep_view().len() ==> names.deep_view()[i] == clean_name(
                    #[trigger] page_name_cells(html@)[i],
                )
        },
{
    match page_text {
        Some(text) => Some(find_names_in_html(text)),
        None => None,
    }
}

} // verus!
