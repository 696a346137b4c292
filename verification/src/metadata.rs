//! Extraction of the version list from a repository metadata document.
//!
//! The document is walked as a stream of parse events; the text content of
//! every `version` element is trimmed and collected.  A malformed document
//! yields no list at all, as the caller then has no usable release history.
//! The parser yields entity and character references as events of their
//! own, so a version text containing a reference is collected only up to
//! it; no published version string holds one.

use vstd::prelude::*;

verus! {

use crate::strutil::{str_views, str_eq};

#[verifier::external_type_specification]
#[verifier::external_body]
#[verifier::reject_recursive_types(R)]
pub struct ExReader<R>(quick_xml::Reader<R>);

/// One parse event as the extractor reads it: an element start with its
/// name, raw text content, the end of the document, a parse failure, or
/// anything else.
pub enum XmlEvent {
    Start(String),
    Text(String),
    Other,
    Malformed,
    Eof,
}

/// The view of one parse event.
pub enum XmlEv {
    Start(Seq<char>),
    Text(Seq<char>),
    Other,
    Malformed,
    Eof,
}

impl View for XmlEvent {
    type V = XmlEv;

    open spec fn view(&self) -> XmlEv {
        match self {
            XmlEvent::Start(n) => XmlEv::Start(n@),
            XmlEvent::Text(t) => XmlEv::Text(t@),
            XmlEvent::Other => XmlEv::Other,
            XmlEvent::Malformed => XmlEv::Malformed,
            XmlEvent::Eof => XmlEv::Eof,
        }
    }
}

/// The events a reader has yet to yield.
pub uninterp spec fn xml_remaining(r: quick_xml::Reader<&[u8]>) -> Seq<XmlEv>;

/// The events of one document, with text trimmed, as the configured reader
/// yields them; they depend on the document alone.
pub uninterp spec fn xml_events_of(doc: Seq<char>) -> Seq<XmlEv>;

/// Relies on quick_xml's Reader::from_str and Config::trim_text: a pull
/// parser over the document with whitespace-trimmed text events.
#[verifier::external_body]
fn xml_reader(s: &str) -> (r: quick_xml::Reader<&[u8]>)
    ensures
        xml_remaining(r) == xml_events_of(s@),
{
    let mut r = quick_xml::Reader::from_str(s);
    r.config_mut().trim_text(true);
    r
}

/// Relies on quick_xml's Reader::read_event: the reader yields its events
/// in document order and returns the end-of-document event once they are
/// exhausted.  Entity and character references arrive as events of their
/// own and are mapped, like all events the extractor does not read, to
/// `Other`.
#[verifier::external_body]
fn next_xml_event(r: &mut quick_xml::Reader<&[u8]>) -> (e: XmlEvent)
    ensures
        xml_remaining(*old(r)).len() > 0 ==> e@ == xml_remaining(*old(r))[0] && xml_remaining(
            *final (r),
        ) == xml_remaining(*old(r)).drop_first(),
        xml_remaining(*old(r)).len() == 0 ==> e@ == XmlEv::Eof && xml_remaining(*final (r))
            == xml_remaining(*old(r)),
{
    match r.read_event() {
        Ok(quick_xml::events::Event::Start(b)) => XmlEvent::Start(b.name().0.to_owned()),
        Ok(quick_xml::events::Event::Text(t)) => XmlEvent::Text(t.into_inner().into_owned()),
        Ok(quick_xml::events::Event::Eof) => XmlEvent::Eof,
        Ok(_) => XmlEvent::Other,
        Err(_) => XmlEvent::Malformed,
    }
}

/// An ASCII whitespace character.
pub open spec fn is_space(c: char) -> bool {
    c == ' ' || c == '\t' || c == '\n' || c == '\r'
}

/// `s` without leading ASCII whitespace.
pub open spec fn trim_front_spec(s: Seq<char>) -> Seq<char>
    decreases s.len(),
{
    if s.len() > 0 && is_space(s.first()) {
        trim_front_spec(s.drop_first())
    } else {
        s
    }
}

/// `s` without leading or trailing ASCII whitespace.
pub open spec fn trim_spec(s: Seq<char>) -> Seq<char>
    decreases s.len(),
{
    if s.len() > 0 && is_space(s.last()) {
        trim_spec(s.drop_last())
    } else {
        trim_front_spec(s)
    }
}

/// Executable `is_space`.
fn is_space_char(c: char) -> (r: bool)
    ensures
        r == is_space(c),
{
    c == ' ' || c == '\t' || c == '\n' || c == '\r'
}

/// Remove leading and trailing ASCII whitespace.
pub fn trim_ascii(s: &str) -> (r: String)
    ensures
        r@ == trim_spec(s@),
{
    let n = s.unicode_len();
    let mut e = n;
    proof {
        assert(s@.take(n as int) =~= s@);
    }
    while e > 0 && is_space_char(s.get_char(e - 1))
        invariant
            n == s@.len(),
            0 <= e <= n,
            trim_spec(s@) == trim_spec(s@.take(e as int)),
        decreases e,
    {
        proof {
            assert(s@.take(e as int).last() == s@[e - 1]);
            assert(s@.take(e as int).drop_last() =~= s@.take(e - 1));
        }
        e = e - 1;
    }
    proof {
        if e > 0 {
            assert(s@.take(e as int).last() == s@[e - 1]);
        }
        assert(trim_spec(s@.take(e as int)) == trim_front_spec(s@.take(e as int)));
    }
    let mut b: usize = 0;
    while b < e && is_space_char(s.get_char(b))
        invariant
            n == s@.len(),
            0 <= b <= e <= n,
            trim_spec(s@) == trim_front_spec(s@.subrange(b as int, e as int)),
        decreases e - b,
    {
        proof {
            let t = s@.subrange(b as int, e as int);
            assert(t.first() == s@[b as int]);
            assert(t.drop_first() =~= s@.subrange(b + 1, e as int));
        }
        b = b + 1;
    }
    proof {
        let t = s@.subrange(b as int, e as int);
        if t.len() > 0 {
            assert(t.first() == s@[b as int]);
        }
        assert(trim_front_spec(t) == t);
    }
    String::from_str(s.substring_char(b, e))
}

/// The versions an event stream yields: the trimmed text content of every
/// `version` element, in document order; nothing on a malformed document.
pub open spec fn harvest(evs: Seq<XmlEv>) -> Option<Seq<Seq<char>>>
    decreases evs.len(),
{
    if evs.len() == 0 {
        Some(Seq::empty())
    } else {
        match evs[0] {
            XmlEv::Eof => Some(Seq::empty()),
            XmlEv::Malformed => None,
            XmlEv::Start(name) => {
                if name == "version"@ {
                    if evs.len() >= 2 {
                        match evs[1] {
                            XmlEv::Text(t) => {
                                let v = trim_spec(t);
                                match harvest(evs.skip(2)) {
                                    Some(rest) => Some(
                                        if v.len() > 0 {
                                            seq![v] + rest
                                        } else {
                                            rest
                                        },
                                    ),
                                    None => None,
                                }
                            },
                            _ => harvest(evs.skip(2)),
                        }
                    } else {
                        Some(Seq::empty())
                    }
                } else {
                    harvest(evs.skip(1))
                }
            },
            _ => harvest(evs.skip(1)),
        }
    }
}

/// Extract the version strings of a metadata document, in document order.
/// Returns the harvest of the document's event stream, or nothing when the
/// document is malformed.
pub fn versions_from_metadata(xml: &str) -> (r: Option<Vec<String>>)
    ensures
        match r {
            Some(vs) => harvest(xml_events_of(xml@)) == Some(str_views(vs@)),
            None => harvest(xml_events_of(xml@)) is None,
        },
{
    let mut reader = xml_reader(xml);
    let mut collected: Vec<String> = Vec::new();
    let ghost full = xml_events_of(xml@);
    loop
        invariant
            full == xml_events_of(xml@),
            ({
                let rem = xml_remaining(reader);
                match harvest(rem) {
                    Some(rest) => harvest(full) == Some(str_views(collected@) + rest),
                    None => harvest(full) is None,
                }
            }),
        decreases xml_remaining(reader).len(),
    {
        let ghost rem0 = xml_remaining(reader);
        let e = next_xml_event(&mut reader);
        match e {
            XmlEvent::Eof => {
                proof {
                    assert(harvest(rem0) == Some(Seq::<Seq<char>>::empty()));
                    assert(str_views(collected@) + Seq::<Seq<char>>::empty() =~= str_views(
                        collected@,
                    ));
                }
                return Some(collected);
            },
            XmlEvent::Malformed => {
                proof {
                    assert(harvest(rem0) is None);
                }
                return None;
            },
            XmlEvent::Start(name) => {
                if str_eq(name.as_str(), "version") {
                    let ghost rem1 = xml_remaining(reader);
                    let e2 = next_xml_event(&mut reader);
                    match e2 {
                        XmlEvent::Text(t) => {
                            proof {
                                assert(rem1.len() > 0);
                                assert(rem0.len() >= 2);
                                assert(rem0[1] == e2@);
                            }
                            let v = trim_ascii(t.as_str());
                            let ghost old_c = collected@;
                            if v.as_str().unicode_len() > 0 {
                                collected.push(v);
                                proof {
                                    assert(str_views(collected@) =~= str_views(old_c).push(
                                        trim_spec(t@),
                                    ));
                                    assert(xml_remaining(reader) =~= rem0.skip(2));
                                    lemma_harvest_cons(
                                        rem0,
                                        str_views(old_c),
                                        full,
                                        str_views(collected@),
                                    );
                                }
                            } else {
                                proof {
                                    assert(xml_remaining(reader) =~= rem0.skip(2));
                                    lemma_harvest_skip_text(rem0, str_views(old_c), full);
                                }
                            }
                        },
                        _ => {
                            proof {
                                if rem1.len() == 0 {
                                    assert(harvest(rem0) == Some(Seq::<Seq<char>>::empty()));
                                    assert(xml_remaining(reader) == rem1);
                                    assert(harvest(xml_remaining(reader)) == Some(Seq::<
                                        Seq<char>,
                                    >::empty()));
                                } else {
                                    assert(rem0[1] == e2@);
                                    assert(xml_remaining(reader) =~= rem0.skip(2));
                                    assert(harvest(rem0) == harvest(rem0.skip(2)));
                                }
                            }
                        },
                    }
                } else {
                    proof {
                        assert(xml_remaining(reader) =~= rem0.skip(1));
                        assert(harvest(rem0) == harvest(rem0.skip(1)));
                    }
                }
            },
            _ => {
                proof {
                    assert(rem0.len() > 0);
                    assert(xml_remaining(reader) =~= rem0.skip(1));
                    assert(harvest(rem0) == harvest(rem0.skip(1)));
                }
            },
        }
    }
}

/// One collected version extends the prefix by one element.
proof fn lemma_harvest_cons(
    rem0: Seq<XmlEv>,
    old_c: Seq<Seq<char>>,
    full: Seq<XmlEv>,
    new_c: Seq<Seq<char>>,
)
    requires
        rem0.len() >= 2,
        rem0[0] is Start && rem0[0]->Start_0 == "version"@,
        rem0[1] is Text,
        trim_spec(rem0[1]->Text_0).len() > 0,
        new_c == old_c.push(trim_spec(rem0[1]->Text_0)),
        match harvest(rem0) {
            Some(rest) => harvest(full) == Some(old_c + rest),
            None => harvest(full) is None,
        },
    ensures
        match harvest(rem0.skip(2)) {
            Some(rest) => harvest(full) == Some(new_c + rest),
            None => harvest(full) is None,
        },
{
    let v = trim_spec(rem0[1]->Text_0);
    match harvest(rem0.skip(2)) {
        Some(rest) => {
            assert(harvest(rem0) == Some(seq![v] + rest));
            assert(old_c + (seq![v] + rest) =~= new_c + rest);
        },
        None => {
            assert(harvest(rem0) is None);
        },
    }
}

/// A version element whose text trims to nothing collects nothing.
proof fn lemma_harvest_skip_text(rem0: Seq<XmlEv>, old_c: Seq<Seq<char>>, full: Seq<XmlEv>)
    requires
        rem0.len() >= 2,
        rem0[0] is Start && rem0[0]->Start_0 == "version"@,
        rem0[1] is Text,
        trim_spec(rem0[1]->Text_0).len() == 0,
        match harvest(rem0) {
            Some(rest) => harvest(full) == Some(old_c + rest),
            None => harvest(full) is None,
        },
    ensures
        match harvest(rem0.skip(2)) {
            Some(rest) => harvest(full) == Some(old_c + rest),
            None => harvest(full) is None,
        },
{
    match harvest(rem0.skip(2)) {
        Some(rest) => {
            assert(harvest(rem0) == Some(rest));
        },
        None => {
            assert(harvest(rem0) is None);
        },
    }
}

} // verus!
