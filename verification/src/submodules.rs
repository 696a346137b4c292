//! Discovery of sub-modules from a repository directory listing page.
//!
//! Every line of the page is scanned for its first link target; a target
//! that extends the artifact identifier, is not the identifier itself and
//! does not climb out of the directory names a sub-module.  The result is
//! sorted and duplicate-free.

use vstd::prelude::*;

verus! {

use crate::strutil::{
    str_views,
    sorted_le,
    distinct_seq,
    split_by,
    split,
    first_occ,
    has_prefix,
    trim_end_spec,
    find_sub,
    starts_with,
    str_eq,
    trim_end_char,
    insert_sorted,
    lemma_first_occ_from,
};

/// Is `link` a sub-module link relative to the artifact identifier?
pub open spec fn is_module_link(link: Seq<char>, aid: Seq<char>) -> bool {
    has_prefix(link, aid) && link != aid && first_occ(link, ".."@) is None
}

/// The accepted link target of one page line, if any: the text between the
/// first link marker and the next quote, with trailing slashes removed.
pub open spec fn link_of_line(line: Seq<char>, aid: Seq<char>) -> Option<Seq<char>> {
    match first_occ(line, "href=\""@) {
        Some(p) => {
            let rest = line.skip(p + 6);
            match first_occ(rest, "\""@) {
                Some(q) => {
                    let link = trim_end_spec(rest.take(q), '/');
                    if is_module_link(link, aid) {
                        Some(link)
                    } else {
                        None
                    }
                },
                None => None,
            }
        },
        None => None,
    }
}

/// The accepted link of one line.
fn line_link(line: &str, aid: &str) -> (r: Option<String>)
    ensures
        match r {
            Some(l) => link_of_line(line@, aid@) == Some(l@),
            None => link_of_line(line@, aid@) is None,
        },
{
    let n = line.unicode_len();
    if let Some(p) = find_sub(line, "href=\"") {
        proof {
            lemma_first_occ_from(line@, "href=\""@, 0);
            reveal_strlit("href=\"");
            assert(line@.subrange(p + 6, n as int) =~= line@.skip(p + 6));
        }
        let rest = line.substring_char(p + 6, n);
        if let Some(q) = find_sub(rest, "\"") {
            proof {
                lemma_first_occ_from(rest@, "\""@, 0);
                reveal_strlit("\"");
                assert(rest@.subrange(0, q as int) =~= rest@.take(q as int));
            }
            let link = trim_end_char(rest.substring_char(0, q), '/');
            if starts_with(link.as_str(), aid) && !str_eq(link.as_str(), aid) && find_sub(
                link.as_str(),
                "..",
            ).is_none() {
                return Some(link);
            }
            return None;
        }
        return None;
    }
    None
}

/// Collect the sub-modules named by a directory listing page, sorted and
/// duplicate-free: exactly the accepted link targets of the page's lines.
pub fn submodules_from_html(html: &str, artifact_id: &str) -> (r: Vec<String>)
    ensures
        sorted_le(str_views(r@)),
        distinct_seq(str_views(r@)),
        forall|k: Seq<char>|
            str_views(r@).to_set().contains(k) <==> exists|j: int|
                0 <= j < split_by(html@, seq!['\n']).len() && link_of_line(
                    #[trigger] split_by(html@, seq!['\n'])[j],
                    artifact_id@,
                ) == Some(k),
{
    let mut seps: Vec<char> = Vec::new();
    seps.push('\n');
    proof {
        assert(seps@ =~= seq!['\n']);
    }
    let lines = split(html, &seps);
    let ghost lv = split_by(html@, seq!['\n']);
    let mut r: Vec<String> = Vec::new();
    let mut i: usize = 0;
    while i < lines.len()
        invariant
            lv == split_by(html@, seq!['\n']),
            lv == str_views(lines@),
            0 <= i <= lv.len(),
            sorted_le(str_views(r@)),
            distinct_seq(str_views(r@)),
            forall|k: Seq<char>|
                str_views(r@).to_set().contains(k) <==> exists|j: int|
                    0 <= j < i && link_of_line(#[trigger] lv[j], artifact_id@) == Some(k),
        decreases lv.len() - i,
    {
        proof {
            assert(str_views(lines@)[i as int] == lines@[i as int]@);
        }
        let ghost old_set = str_views(r@).to_set();
        if let Some(link) = line_link(lines[i].as_str(), artifact_id) {
            let mut present = false;
            let mut t: usize = 0;
            while t < r.len()
                invariant
                    0 <= t <= r@.len(),
                    present <==> exists|q: int| 0 <= q < t && str_views(r@)[q] == link@,
                    present ==> str_views(r@).to_set().contains(link@),
                decreases r@.len() - t,
            {
                if str_eq(r[t].as_str(), link.as_str()) {
                    present = true;
                    assert(str_views(r@)[t as int] == link@);
                }
                t = t + 1;
            }
            if !present {
                proof {
                    assert(!str_views(r@).to_set().contains(link@)) by {
                        if str_views(r@).to_set().contains(link@) {
                            let q = choose|q: int|
                                0 <= q < r@.len() && #[trigger] str_views(r@)[q] == link@;
                        }
                    }
                }
                let ghost lk = link@;
                insert_sorted(&mut r, link);
                proof {
                    assert(str_views(r@).to_set() =~= old_set.insert(lk));
                }
            }
        }
        proof {
            assert forall|k: Seq<char>|
                str_views(r@).to_set().contains(k) <==> exists|j: int|
                    0 <= j < i + 1 && link_of_line(#[trigger] lv[j], artifact_id@) == Some(k) by {
                if str_views(r@).to_set().contains(k) {
                    if link_of_line(lv[i as int], artifact_id@) == Some(k) {
                        assert(0 <= i < i + 1);
                    } else {
                        assert(old_set.contains(k));
                    }
                }
                if exists|j: int|
                    0 <= j < i + 1 && link_of_line(#[trigger] lv[j], artifact_id@) == Some(k) {
                    let j = choose|j: int|
                        0 <= j < i + 1 && link_of_line(#[trigger] lv[j], artifact_id@) == Some(k);
                    if j < i {
                        assert(old_set.contains(k));
                    }
                }
            }
        }
        i = i + 1;
    }
    r
}

} // verus!
