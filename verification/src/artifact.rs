//! Parsing of the artifact argument.
//!
//! The argument names either a Maven coordinate (`group.id/artifact` or
//! `group.id:artifact`), one of several repository-browser URL shapes, or a
//! source-hosting project (`owner/repo` or its URL).  The result is the pair
//! of identifiers, whether the source-hosting mode applies, and an optional
//! repository base URL recovered from the argument.

use vstd::prelude::*;

verus! {

use crate::strutil::{
    split_by,
    split,
    str_views,
    has_prefix,
    first_occ,
    trim_end_spec,
    trim_start_spec,
    join_spec,
    starts_with,
    find_sub,
    trim_end_char,
    trim_start_matches,
    str_contains_char,
    join_range,
};

/// Does `parts[i]` start with one of the group-root markers?
pub open spec fn is_group_root(p: Seq<char>) -> bool {
    ||| has_prefix(p, "com"@)
    ||| has_prefix(p, "org"@)
    ||| has_prefix(p, "io"@)
    ||| has_prefix(p, "net"@)
}

/// The least index at or after `i`, beyond the first three parts, whose part
/// starts with a group-root marker.
pub open spec fn group_start_from(parts: Seq<Seq<char>>, i: int) -> Option<int>
    decreases parts.len() - i,
{
    if i < 0 || i >= parts.len() {
        None
    } else if i >= 3 && is_group_root(parts[i]) {
        Some(i)
    } else {
        group_start_from(parts, i + 1)
    }
}

/// The parse of a repository-browser URL of a known host: the group and
/// artifact identifiers from its path.
pub open spec fn central_parse(a: Seq<char>) -> Option<(Seq<char>, Seq<char>)> {
    let path = trim_end_spec(trim_start_spec(a, "https://central.sonatype.com/artifact/"@), '/');
    let parts = split_by(path, seq!['/']);
    if parts.len() >= 2 {
        Some((parts[0], parts[1]))
    } else {
        None
    }
}

/// The parse of an arbitrary repository URL: group, artifact and the
/// repository base, split at the first group-root path component.
pub open spec fn custom_repo_parse(a: Seq<char>) -> Option<(Seq<char>, Seq<char>, Seq<char>)> {
    let url = trim_end_spec(a, '/');
    let parts = split_by(url, seq!['/']);
    if parts.len() >= 5 {
        match group_start_from(parts, 0) {
            Some(g) => Some(
                (
                    join_spec(parts.subrange(g, parts.len() - 1), seq!['.']),
                    parts[parts.len() - 1],
                    join_spec(parts.subrange(0, g), seq!['/']),
                ),
            ),
            None => None,
        }
    } else {
        None
    }
}

/// The parse of a default-repository URL: group from the directories,
/// artifact from the last one.
pub open spec fn repo_url_parse(a: Seq<char>) -> Option<(Seq<char>, Seq<char>)> {
    let path = trim_end_spec(
        trim_start_spec(
            trim_start_spec(a, "https://repo1.maven.org/maven2/"@),
            "http://repo1.maven.org/maven2/"@,
        ),
        '/',
    );
    let parts = split_by(path, seq!['/']);
    if parts.len() >= 2 {
        Some((join_spec(parts.subrange(0, parts.len() - 1), seq!['.']), parts[parts.len() - 1]))
    } else {
        None
    }
}

/// The parse of a source-hosting URL: owner and repository.
pub open spec fn hosting_url_parse(a: Seq<char>) -> Option<(Seq<char>, Seq<char>)> {
    let path = trim_end_spec(
        trim_start_spec(trim_start_spec(a, "https://github.com/"@), "http://github.com/"@),
        '/',
    );
    let parts = split_by(path, seq!['/']);
    if parts.len() >= 2 {
        Some((parts[0], parts[1]))
    } else {
        None
    }
}

/// What `parse_artifact` returns: each URL shape is tried in turn, then the
/// plain `owner/repo`, `group/artifact` and `group:artifact` shapes, and an
/// argument matching nothing names the same value as group and artifact.
pub open spec fn parse_artifact_spec(a: Seq<char>) -> (Seq<char>, Seq<char>, bool, Option<
    Seq<char>,
>) {
    if has_prefix(a, "https://central.sonatype.com/artifact/"@) && central_parse(a) is Some {
        let p = central_parse(a)->0;
        (p.0, p.1, false, None)
    } else if (has_prefix(a, "https://"@) || has_prefix(a, "http://"@)) && first_occ(
        a,
        "github.com"@,
    ) is None && first_occ(a, "central.sonatype.com"@) is None && a.contains('/')
        && custom_repo_parse(a) is Some {
        let p = custom_repo_parse(a)->0;
        (p.0, p.1, false, Some(p.2))
    } else if (has_prefix(a, "https://repo1.maven.org/maven2/"@) || has_prefix(
        a,
        "http://repo1.maven.org/maven2/"@,
    )) && repo_url_parse(a) is Some {
        let p = repo_url_parse(a)->0;
        (p.0, p.1, false, None)
    } else if (has_prefix(a, "https://github.com/"@) || has_prefix(a, "http://github.com/"@))
        && hosting_url_parse(a) is Some {
        let p = hosting_url_parse(a)->0;
        (p.0, p.1, true, None)
    } else if a.contains('/') && !a.contains('.') && split_by(a, seq!['/']).len() == 2 {
        let parts = split_by(a, seq!['/']);
        (parts[0], parts[1], true, None)
    } else {
        let sep = if a.contains(':') {
            ':'
        } else {
            '/'
        };
        let parts = split_by(a, seq![sep]);
        if parts.len() >= 2 {
            (parts[0], parts[1], false, None)
        } else {
            (a, a, false, None)
        }
    }
}

/// A one-character separator list.
fn one_sep(c: char) -> (r: Vec<char>)
    ensures
        r@ == seq![c],
{
    let mut v: Vec<char> = Vec::new();
    v.push(c);
    proof {
        assert(v@ =~= seq![c]);
    }
    v
}

/// Parse the artifact argument into group identifier, artifact identifier,
/// whether it names a source-hosting project, and an optional repository
/// base URL.
pub fn parse_artifact(artifact: &str) -> (r: (String, String, bool, Option<String>))
    ensures
        ({
            let s = parse_artifact_spec(artifact@);
            &&& r.0@ == s.0
            &&& r.1@ == s.1
            &&& r.2 == s.2
            &&& (match (r.3, s.3) {
                (Some(u), Some(v)) => u@ == v,
                (None, None) => true,
                _ => false,
            })
        }),
{
    let slash = one_sep('/');
    if starts_with(artifact, "https://central.sonatype.com/artifact/") {
        let path = trim_end_char(
            trim_start_matches(artifact, "https://central.sonatype.com/artifact/").as_str(),
            '/',
        );
        let parts = split(path.as_str(), &slash);
        if parts.len() >= 2 {
            proof {
                assert(str_views(parts@)[0] == parts@[0]@);
                assert(str_views(parts@)[1] == parts@[1]@);
            }
            return (parts[0].clone(), parts[1].clone(), false, None);
        }
    }
    let is_http = starts_with(artifact, "https://") || starts_with(artifact, "http://");
    if is_http && find_sub(artifact, "github.com").is_none() && find_sub(
        artifact,
        "central.sonatype.com",
    ).is_none() && str_contains_char(artifact, '/') {
        let url = trim_end_char(artifact, '/');
        let parts = split(url.as_str(), &slash);
        if parts.len() >= 5 {
            let mut gi: usize = 0;
            let mut found = false;
            while gi < parts.len() && !found
                invariant
                    0 <= gi <= parts@.len(),
                    !found ==> group_start_from(str_views(parts@), 0) == group_start_from(
                        str_views(parts@),
                        gi as int,
                    ),
                    found ==> group_start_from(str_views(parts@), 0) == Some(gi as int) && gi
                        < parts@.len(),
                decreases parts@.len() - gi + (if found {
                    0int
                } else {
                    1int
                }),
            {
                let p = parts[gi].as_str();
                proof {
                    assert(str_views(parts@)[gi as int] == parts@[gi as int]@);
                }
                if gi >= 3 && (starts_with(p, "com") || starts_with(p, "org") || starts_with(
                    p,
                    "io",
                ) || starts_with(p, "net")) {
                    found = true;
                } else {
                    gi = gi + 1;
                }
            }
            if found {
                proof {
                    reveal_strlit(".");
                    reveal_strlit("/");
                    assert(("."@) =~= seq!['.']);
                    assert(("/"@) =~= seq!['/']);
                }
                let group_id = join_range(&parts, gi, parts.len() - 1, ".");
                let artifact_id = parts[parts.len() - 1].clone();
                let repo_base = join_range(&parts, 0, gi, "/");
                proof {
                    assert(str_views(parts@)[parts@.len() - 1] == parts@[parts@.len() - 1]@);
                }
                return (group_id, artifact_id, false, Some(repo_base));
            }
        }
    }
    if starts_with(artifact, "https://repo1.maven.org/maven2/") || starts_with(
        artifact,
        "http://repo1.maven.org/maven2/",
    ) {
        let path = trim_end_char(
            trim_start_matches(
                trim_start_matches(artifact, "https://repo1.maven.org/maven2/").as_str(),
                "http://repo1.maven.org/maven2/",
            ).as_str(),
            '/',
        );
        let parts = split(path.as_str(), &slash);
        if parts.len() >= 2 {
            proof {
                reveal_strlit(".");
                assert(("."@) =~= seq!['.']);
            }
            let group_id = join_range(&parts, 0, parts.len() - 1, ".");
            let artifact_id = parts[parts.len() - 1].clone();
            proof {
                assert(str_views(parts@)[parts@.len() - 1] == parts@[parts@.len() - 1]@);
                assert(str_views(parts@).subrange(0, parts@.len() - 1) =~= split_by(
                    path@,
                    seq!['/'],
                ).subrange(0, split_by(path@, seq!['/']).len() - 1));
            }
            return (group_id, artifact_id, false, None);
        }
    }
    if starts_with(artifact, "https://github.com/") || starts_with(artifact, "http://github.com/") {
        let path = trim_end_char(
            trim_start_matches(
                trim_start_matches(artifact, "https://github.com/").as_str(),
                "http://github.com/",
            ).as_str(),
            '/',
        );
        let parts = split(path.as_str(), &slash);
        if parts.len() >= 2 {
            proof {
                assert(str_views(parts@)[0] == parts@[0]@);
                assert(str_views(parts@)[1] == parts@[1]@);
            }
            return (parts[0].clone(), parts[1].clone(), true, None);
        }
    }
    if str_contains_char(artifact, '/') && !str_contains_char(artifact, '.') {
        let parts = split(artifact, &slash);
        if parts.len() == 2 {
            proof {
                assert(str_views(parts@)[0] == parts@[0]@);
                assert(str_views(parts@)[1] == parts@[1]@);
            }
            return (parts[0].clone(), parts[1].clone(), true, None);
        }
    }
    let sep = if str_contains_char(artifact, ':') {
        ':'
    } else {
        '/'
    };
    let seps = one_sep(sep);
    let parts = split(artifact, &seps);
    if parts.len() >= 2 {
        proof {
            assert(str_views(parts@)[0] == parts@[0]@);
            assert(str_views(parts@)[1] == parts@[1]@);
        }
        return (parts[0].clone(), parts[1].clone(), false, None);
    }
    (String::from_str(artifact), String::from_str(artifact), false, None)
}

} // verus!
