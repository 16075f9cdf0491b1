//! The persisted layout of packages and of their keys.
//!
//! Everything is written in sequence with no padding. A number is eight
//! bytes, least significant first. A text is the number of its UTF-8 bytes
//! and then those bytes. An optional text is the byte 0, or the byte 1 and
//! the text. A list is the number of its items and then the items. An entry
//! is its path (a list of texts), one byte for its kind, its title, its body
//! and its optional source address. A key is the identity: provider, name and
//! optional version. A package is the four bytes `IDX1`, its identity, the
//! time of indexing, the content digest and the list of its entries.
//!
//! Reading accepts exactly what writing produces: a buffer that is cut short,
//! runs on after the last item, holds text that is not UTF-8, an unknown kind,
//! or an entry without a path or a title is rejected as a whole.

use vstd::prelude::*;
use vstd::bytes::{
    lemma_auto_spec_u64_to_from_le_bytes,
    spec_u64_from_le_bytes,
    spec_u64_to_le_bytes,
    u64_from_le_bytes,
    u64_to_le_bytes,
};
use vstd::slice::{slice_subrange, slice_to_vec};
use vstd::utf8::{
    decode_utf8,
    decode_utf8_encode_utf8,
    encode_utf8,
    encode_utf8_decode_utf8,
    encode_utf8_valid_utf8,
    valid_utf8,
};
use vstd::string::StringSliceAdditionalSpecFns;
use crate::entry::{entry_views, DocEntry, DocKind, EntryView};
use crate::identity::{optional_text, IdentityView, PackageIdentity};
use crate::package::{IndexedPackage, PackageView};
use crate::text::texts;

verus! {

/// The bytes `enc` stand in `b` from position `at` on.
pub open spec fn holds_at(b: Seq<u8>, at: int, enc: Seq<u8>) -> bool {
    &&& 0 <= at
    &&& at + enc.len() <= b.len()
    &&& b.subrange(at, at + enc.len()) == enc
}

/// Where two encodings stand one after the other, each stands in its place.
pub proof fn lemma_holds_split(b: Seq<u8>, at: int, first: Seq<u8>, second: Seq<u8>)
    requires
        holds_at(b, at, first + second),
    ensures
        holds_at(b, at, first),
        holds_at(b, at + first.len(), second),
{
    let whole = first + second;
    assert(b.subrange(at, at + first.len()) =~= whole.subrange(0, first.len() as int));
    assert(whole.subrange(0, first.len() as int) =~= first);
    assert(b.subrange(at + first.len(), at + first.len() + second.len()) =~= whole.subrange(
        first.len() as int,
        whole.len() as int,
    ));
    assert(whole.subrange(first.len() as int, whole.len() as int) =~= second);
}

/// The bytes of a number.
pub open spec fn encode_u64(x: u64) -> Seq<u8> {
    spec_u64_to_le_bytes(x)
}

/// The number that stands at `at`, and where it ends.
pub open spec fn parse_u64(b: Seq<u8>, at: int) -> Option<(u64, int)> {
    if 0 <= at && at + 8 <= b.len() {
        Some((spec_u64_from_le_bytes(b.subrange(at, at + 8)), at + 8))
    } else {
        None
    }
}

/// A number that was written is read back.
pub proof fn lemma_u64_round_trip(b: Seq<u8>, at: int, x: u64)
    requires
        holds_at(b, at, encode_u64(x)),
    ensures
        encode_u64(x).len() == 8,
        parse_u64(b, at) == Some((x, at + 8)),
{
    lemma_auto_spec_u64_to_from_le_bytes();
}

/// The text can be written: the number of its bytes fits the layout.
pub open spec fn text_fits(s: Seq<char>) -> bool {
    encode_utf8(s).len() <= u64::MAX
}

/// The bytes of a text.
pub open spec fn encode_text(s: Seq<char>) -> Seq<u8> {
    encode_u64(encode_utf8(s).len() as u64) + encode_utf8(s)
}

/// The text that stands at `at`, and where it ends.
pub open spec fn parse_text(b: Seq<u8>, at: int) -> Option<(Seq<char>, int)> {
    match parse_u64(b, at) {
        Some((n, p)) => if p + n <= b.len() && valid_utf8(b.subrange(p, p + n)) {
            Some((decode_utf8(b.subrange(p, p + n)), p + n))
        } else {
            None
        },
        None => None,
    }
}

/// A text that was written is read back.
pub proof fn lemma_text_round_trip(b: Seq<u8>, at: int, s: Seq<char>)
    requires
        text_fits(s),
        holds_at(b, at, encode_text(s)),
    ensures
        parse_text(b, at) == Some((s, at + encode_text(s).len())),
{
    let n = encode_utf8(s).len() as u64;
    lemma_holds_split(b, at, encode_u64(n), encode_utf8(s));
    lemma_u64_round_trip(b, at, n);
    encode_utf8_valid_utf8(s);
    encode_utf8_decode_utf8(s);
}

/// The optional text can be written.
pub open spec fn optional_fits(s: Option<Seq<char>>) -> bool {
    match s {
        Some(t) => text_fits(t),
        None => true,
    }
}

/// The bytes of an optional text.
pub open spec fn encode_optional(s: Option<Seq<char>>) -> Seq<u8> {
    match s {
        Some(t) => seq![1u8] + encode_text(t),
        None => seq![0u8],
    }
}

/// The optional text that stands at `at`, and where it ends.
pub open spec fn parse_optional(b: Seq<u8>, at: int) -> Option<(Option<Seq<char>>, int)> {
    if 0 <= at < b.len() {
        if b[at] == 0 {
            Some((None, at + 1))
        } else if b[at] == 1 {
            match parse_text(b, at + 1) {
                Some((t, p)) => Some((Some(t), p)),
                None => None,
            }
        } else {
            None
        }
    } else {
        None
    }
}

/// An optional text that was written is read back.
pub proof fn lemma_optional_round_trip(b: Seq<u8>, at: int, s: Option<Seq<char>>)
    requires
        optional_fits(s),
        holds_at(b, at, encode_optional(s)),
    ensures
        parse_optional(b, at) == Some((s, at + encode_optional(s).len())),
{
    match s {
        Some(t) => {
            lemma_holds_split(b, at, seq![1u8], encode_text(t));
            assert(b.subrange(at, at + 1)[0] == 1u8);
            lemma_text_round_trip(b, at + 1, t);
        },
        None => {
            assert(b.subrange(at, at + 1)[0] == 0u8);
        },
    }
}

/// The list of texts can be written.
pub open spec fn texts_fit(v: Seq<Seq<char>>) -> bool {
    &&& v.len() <= u64::MAX
    &&& forall|i: int| 0 <= i < v.len() ==> text_fits(#[trigger] v[i])
}

/// The bytes of the texts of a list, one after the other.
pub open spec fn encode_each_text(v: Seq<Seq<char>>) -> Seq<u8>
    decreases v.len(),
{
    if v.len() == 0 {
        Seq::empty()
    } else {
        encode_each_text(v.drop_last()) + encode_text(v.last())
    }
}

/// The bytes of a list of texts.
pub open spec fn encode_texts(v: Seq<Seq<char>>) -> Seq<u8> {
    encode_u64(v.len() as u64) + encode_each_text(v)
}

/// The `n` texts that stand one after the other from `at` on, and where the
/// last one ends.
pub open spec fn parse_each_text(b: Seq<u8>, at: int, n: nat) -> Option<(Seq<Seq<char>>, int)>
    decreases n,
{
    if n == 0 {
        Some((Seq::empty(), at))
    } else {
        match parse_each_text(b, at, (n - 1) as nat) {
            Some((v, p)) => match parse_text(b, p) {
                Some((t, q)) => Some((v.push(t), q)),
                None => None,
            },
            None => None,
        }
    }
}

/// The list of texts that stands at `at`, and where it ends.
pub open spec fn parse_texts(b: Seq<u8>, at: int) -> Option<(Seq<Seq<char>>, int)> {
    match parse_u64(b, at) {
        Some((n, p)) => parse_each_text(b, p, n as nat),
        None => None,
    }
}

/// Where fewer texts cannot be read, more cannot either.
pub proof fn lemma_each_text_fails(b: Seq<u8>, at: int, m: nat, n: nat)
    requires
        m <= n,
        parse_each_text(b, at, m) is None,
    ensures
        parse_each_text(b, at, n) is None,
    decreases n,
{
    if m < n {
        lemma_each_text_fails(b, at, m, (n - 1) as nat);
    }
}

/// Texts that were written one after the other are read back.
pub proof fn lemma_each_text_round_trip(b: Seq<u8>, at: int, v: Seq<Seq<char>>)
    requires
        forall|i: int| 0 <= i < v.len() ==> text_fits(#[trigger] v[i]),
        holds_at(b, at, encode_each_text(v)),
    ensures
        parse_each_text(b, at, v.len()) == Some((v, at + encode_each_text(v).len())),
    decreases v.len(),
{
    if v.len() > 0 {
        let rest = v.drop_last();
        lemma_holds_split(b, at, encode_each_text(rest), encode_text(v.last()));
        lemma_each_text_round_trip(b, at, rest);
        assert(text_fits(v[v.len() - 1]));
        lemma_text_round_trip(b, at + encode_each_text(rest).len(), v.last());
        assert(rest.push(v.last()) =~= v);
    }
}

/// A list of texts that was written is read back.
pub proof fn lemma_texts_round_trip(b: Seq<u8>, at: int, v: Seq<Seq<char>>)
    requires
        texts_fit(v),
        holds_at(b, at, encode_texts(v)),
    ensures
        parse_texts(b, at) == Some((v, at + encode_texts(v).len())),
{
    lemma_holds_split(b, at, encode_u64(v.len() as u64), encode_each_text(v));
    lemma_u64_round_trip(b, at, v.len() as u64);
    lemma_each_text_round_trip(b, at + 8, v);
}

/// `String::from_utf8`: the string that the bytes encode where they are valid
/// UTF-8, and nothing where they are not.
#[verifier::external_body]
fn string_from_utf8(bytes: Vec<u8>) -> (r: Option<String>)
    ensures
        valid_utf8(bytes@) ==> r is Some && r->Some_0@ == decode_utf8(bytes@),
        !valid_utf8(bytes@) ==> r is None,
{
    String::from_utf8(bytes).ok()
}

/// Appends the bytes of a number.
fn write_u64(out: &mut Vec<u8>, x: u64)
    ensures
        final(out)@ == old(out)@ + encode_u64(x),
{
    let bytes = u64_to_le_bytes(x);
    out.extend_from_slice(bytes.as_slice());
    assert(out@ =~= old(out)@ + encode_u64(x));
}

/// Appends the bytes of a text.
fn write_text(out: &mut Vec<u8>, s: &str)
    ensures
        final(out)@ == old(out)@ + encode_text(s@),
        text_fits(s@),
{
    let bytes = s.as_bytes();
    let n: usize = bytes.len();
    write_u64(out, n as u64);
    out.extend_from_slice(bytes);
    assert(out@ =~= old(out)@ + encode_text(s@));
}

/// Appends the bytes of an optional text.
fn write_optional(out: &mut Vec<u8>, s: &Option<String>)
    ensures
        final(out)@ == old(out)@ + encode_optional(optional_text(*s)),
        optional_fits(optional_text(*s)),
{
    match s {
        Some(t) => {
            out.push(1u8);
            write_text(out, t.as_str());
            assert(out@ =~= old(out)@ + encode_optional(optional_text(*s)));
        },
        None => {
            out.push(0u8);
            assert(out@ =~= old(out)@ + encode_optional(optional_text(*s)));
        },
    }
}

/// Appends the bytes of a list of texts.
fn write_texts(out: &mut Vec<u8>, v: &Vec<String>)
    ensures
        final(out)@ == old(out)@ + encode_texts(texts(v@)),
        texts_fit(texts(v@)),
{
    let ghost all = texts(v@);
    let n: usize = v.len();
    write_u64(out, n as u64);
    let ghost head = out@;
    let mut i: usize = 0;
    while i < v.len()
        invariant
            i <= v@.len(),
            all == texts(v@),
            head == old(out)@ + encode_u64(v@.len() as u64),
            out@ == head + encode_each_text(all.take(i as int)),
            forall|j: int| 0 <= j < i ==> text_fits(#[trigger] all[j]),
        decreases v@.len() - i,
    {
        let ghost held = out@;
        write_text(out, v[i].as_str());
        proof {
            assert(all.take(i + 1).drop_last() =~= all.take(i as int));
            assert(all.take(i + 1).last() == v@[i as int]@);
            assert(out@ =~= head + encode_each_text(all.take(i + 1)));
        }
        i += 1;
    }
    proof {
        assert(all.take(i as int) =~= all);
        assert(out@ =~= old(out)@ + encode_texts(all));
    }
}

/// Reads the number that stands at `at`.
fn read_u64(bytes: &[u8], at: usize) -> (r: Option<(u64, usize)>)
    ensures
        match r {
            Some((x, p)) => parse_u64(bytes@, at as int) == Some((x, p as int)) && p <= bytes@.len(),
            None => parse_u64(bytes@, at as int) is None,
        },
{
    if at > bytes.len() || bytes.len() - at < 8 {
        return None;
    }
    let x = u64_from_le_bytes(slice_subrange(bytes, at, at + 8));
    Some((x, at + 8))
}

/// Reads the text that stands at `at`.
fn read_text(bytes: &[u8], at: usize) -> (r: Option<(String, usize)>)
    ensures
        match r {
            Some((s, p)) => parse_text(bytes@, at as int) == Some((s@, p as int)) && p
                <= bytes@.len(),
            None => parse_text(bytes@, at as int) is None,
        },
{
    let (n, start) = match read_u64(bytes, at) {
        Some(pair) => pair,
        None => { return None; },
    };
    if n > (bytes.len() - start) as u64 {
        return None;
    }
    let end: usize = start + n as usize;
    let raw = slice_to_vec(slice_subrange(bytes, start, end));
    match string_from_utf8(raw) {
        Some(s) => Some((s, end)),
        None => None,
    }
}

/// Reads the optional text that stands at `at`.
fn read_optional(bytes: &[u8], at: usize) -> (r: Option<(Option<String>, usize)>)
    ensures
        match r {
            Some((s, p)) => parse_optional(bytes@, at as int) == Some((optional_text(s), p as int))
                && p <= bytes@.len(),
            None => parse_optional(bytes@, at as int) is None,
        },
{
    if at >= bytes.len() {
        return None;
    }
    let flag: u8 = bytes[at];
    if flag == 0 {
        Some((None, at + 1))
    } else if flag == 1 {
        match read_text(bytes, at + 1) {
            Some((s, p)) => Some((Some(s), p)),
            None => None,
        }
    } else {
        None
    }
}

/// Reads the list of texts that stands at `at`.
fn read_texts(bytes: &[u8], at: usize) -> (r: Option<(Vec<String>, usize)>)
    ensures
        match r {
            Some((v, p)) => parse_texts(bytes@, at as int) == Some((texts(v@), p as int)) && p
                <= bytes@.len(),
            None => parse_texts(bytes@, at as int) is None,
        },
{
    let (n, start) = match read_u64(bytes, at) {
        Some(pair) => pair,
        None => { return None; },
    };
    let mut v: Vec<String> = Vec::new();
    let mut pos: usize = start;
    let mut i: u64 = 0;
    assert(texts(v@) =~= Seq::<Seq<char>>::empty());
    while i < n
        invariant
            i <= n,
            pos <= bytes@.len(),
            parse_u64(bytes@, at as int) == Some((n, start as int)),
            parse_each_text(bytes@, start as int, i as nat) == Some((texts(v@), pos as int)),
        decreases n - i,
    {
        match read_text(bytes, pos) {
            Some((s, p)) => {
                let ghost held = texts(v@);
                v.push(s);
                assert(texts(v@) =~= held.push(s@));
                pos = p;
            },
            None => {
                proof {
                    assert(parse_each_text(bytes@, start as int, (i + 1) as nat) is None);
                    lemma_each_text_fails(bytes@, start as int, (i + 1) as nat, n as nat);
                }
                return None;
            },
        }
        i += 1;
    }
    Some((v, pos))
}

/// The byte that stands for a kind.
pub open spec fn kind_code(kind: DocKind) -> u8 {
    match kind {
        DocKind::Module => 0,
        DocKind::Type => 1,
        DocKind::Function => 2,
        DocKind::Constant => 3,
        DocKind::Trait => 4,
        DocKind::Other => 5,
    }
}

/// The kind that a byte stands for, if any.
pub open spec fn kind_of(code: u8) -> Option<DocKind> {
    if code == 0 {
        Some(DocKind::Module)
    } else if code == 1 {
        Some(DocKind::Type)
    } else if code == 2 {
        Some(DocKind::Function)
    } else if code == 3 {
        Some(DocKind::Constant)
    } else if code == 4 {
        Some(DocKind::Trait)
    } else if code == 5 {
        Some(DocKind::Other)
    } else {
        None
    }
}

/// The entry can be written.
pub open spec fn entry_fits(e: EntryView) -> bool {
    &&& texts_fit(e.path)
    &&& text_fits(e.title)
    &&& text_fits(e.body)
    &&& optional_fits(e.source_url)
}

/// The bytes of an entry.
pub open spec fn encode_entry(e: EntryView) -> Seq<u8> {
    encode_texts(e.path) + seq![kind_code(e.kind)] + encode_text(e.title) + encode_text(e.body)
        + encode_optional(e.source_url)
}

/// The entry that stands at `at`, and where it ends.
pub open spec fn parse_entry(b: Seq<u8>, at: int) -> Option<(EntryView, int)> {
    match parse_texts(b, at) {
        Some((path, end1)) => if 0 <= end1 < b.len() && kind_of(b[end1]) is Some {
            match parse_text(b, end1 + 1) {
                Some((title, end2)) => match parse_text(b, end2) {
                    Some((body, end3)) => match parse_optional(b, end3) {
                        Some((source_url, end4)) => if path.len() > 0 && title.len() > 0 {
                            Some(
                                (
                                    EntryView {
                                        path,
                                        kind: kind_of(b[end1])->Some_0,
                                        title,
                                        body,
                                        source_url,
                                    },
                                    end4,
                                ),
                            )
                        } else {
                            None
                        },
                        None => None,
                    },
                    None => None,
                },
                None => None,
            }
        } else {
            None
        },
        None => None,
    }
}

/// An entry that was written is read back.
pub proof fn lemma_entry_round_trip(b: Seq<u8>, at: int, e: EntryView)
    requires
        e.well_formed(),
        entry_fits(e),
        holds_at(b, at, encode_entry(e)),
    ensures
        parse_entry(b, at) == Some((e, at + encode_entry(e).len())),
{
    let path = encode_texts(e.path);
    let kind = seq![kind_code(e.kind)];
    let title = encode_text(e.title);
    let body = encode_text(e.body);
    let url = encode_optional(e.source_url);
    lemma_holds_split(b, at, path + kind + title + body, url);
    lemma_holds_split(b, at, path + kind + title, body);
    lemma_holds_split(b, at, path + kind, title);
    lemma_holds_split(b, at, path, kind);
    lemma_texts_round_trip(b, at, e.path);
    let end1 = at + path.len();
    assert(b.subrange(end1, end1 + 1)[0] == kind_code(e.kind));
    assert(kind_of(kind_code(e.kind)) == Some(e.kind));
    lemma_text_round_trip(b, end1 + 1, e.title);
    lemma_text_round_trip(b, end1 + 1 + title.len(), e.body);
    lemma_optional_round_trip(b, end1 + 1 + title.len() + body.len(), e.source_url);
}

/// The list of entries can be written.
pub open spec fn entries_fit(v: Seq<EntryView>) -> bool {
    &&& v.len() <= u64::MAX
    &&& forall|i: int| 0 <= i < v.len() ==> entry_fits(#[trigger] v[i])
}

/// The bytes of the entries of a list, one after the other.
pub open spec fn encode_each_entry(v: Seq<EntryView>) -> Seq<u8>
    decreases v.len(),
{
    if v.len() == 0 {
        Seq::empty()
    } else {
        encode_each_entry(v.drop_last()) + encode_entry(v.last())
    }
}

/// The bytes of a list of entries.
pub open spec fn encode_entries(v: Seq<EntryView>) -> Seq<u8> {
    encode_u64(v.len() as u64) + encode_each_entry(v)
}

/// The `n` entries that stand one after the other from `at` on, and where
/// the last one ends.
pub open spec fn parse_each_entry(b: Seq<u8>, at: int, n: nat) -> Option<(Seq<EntryView>, int)>
    decreases n,
{
    if n == 0 {
        Some((Seq::empty(), at))
    } else {
        match parse_each_entry(b, at, (n - 1) as nat) {
            Some((v, p)) => match parse_entry(b, p) {
                Some((e, q)) => Some((v.push(e), q)),
                None => None,
            },
            None => None,
        }
    }
}

/// The list of entries that stands at `at`, and where it ends.
pub open spec fn parse_entries(b: Seq<u8>, at: int) -> Option<(Seq<EntryView>, int)> {
    match parse_u64(b, at) {
        Some((n, p)) => parse_each_entry(b, p, n as nat),
        None => None,
    }
}

/// Where fewer entries cannot be read, more cannot either.
pub proof fn lemma_each_entry_fails(b: Seq<u8>, at: int, m: nat, n: nat)
    requires
        m <= n,
        parse_each_entry(b, at, m) is None,
    ensures
        parse_each_entry(b, at, n) is None,
    decreases n,
{
    if m < n {
        lemma_each_entry_fails(b, at, m, (n - 1) as nat);
    }
}

/// Entries that were written one after the other are read back.
pub proof fn lemma_each_entry_round_trip(b: Seq<u8>, at: int, v: Seq<EntryView>)
    requires
        forall|i: int| 0 <= i < v.len() ==> entry_fits(#[trigger] v[i]) && v[i].well_formed(),
        holds_at(b, at, encode_each_entry(v)),
    ensures
        parse_each_entry(b, at, v.len()) == Some((v, at + encode_each_entry(v).len())),
    decreases v.len(),
{
    if v.len() > 0 {
        let rest = v.drop_last();
        lemma_holds_split(b, at, encode_each_entry(rest), encode_entry(v.last()));
        lemma_each_entry_round_trip(b, at, rest);
        assert(entry_fits(v[v.len() - 1]));
        lemma_entry_round_trip(b, at + encode_each_entry(rest).len(), v.last());
        assert(rest.push(v.last()) =~= v);
    }
}

/// A list of entries that was written is read back.
pub proof fn lemma_entries_round_trip(b: Seq<u8>, at: int, v: Seq<EntryView>)
    requires
        entries_fit(v),
        forall|i: int| 0 <= i < v.len() ==> (#[trigger] v[i]).well_formed(),
        holds_at(b, at, encode_entries(v)),
    ensures
        parse_entries(b, at) == Some((v, at + encode_entries(v).len())),
{
    lemma_holds_split(b, at, encode_u64(v.len() as u64), encode_each_entry(v));
    lemma_u64_round_trip(b, at, v.len() as u64);
    lemma_each_entry_round_trip(b, at + 8, v);
}

/// The identity can be written.
pub open spec fn identity_fits(id: IdentityView) -> bool {
    &&& text_fits(id.provider_id)
    &&& text_fits(id.name)
    &&& optional_fits(id.version)
}

/// The bytes of an identity.
pub open spec fn encode_identity(id: IdentityView) -> Seq<u8> {
    encode_text(id.provider_id) + encode_text(id.name) + encode_optional(id.version)
}

/// The identity that stands at `at`, and where it ends.
pub open spec fn parse_identity(b: Seq<u8>, at: int) -> Option<(IdentityView, int)> {
    match parse_text(b, at) {
        Some((provider_id, end1)) => match parse_text(b, end1) {
            Some((name, end2)) => match parse_optional(b, end2) {
                Some((version, end3)) => Some((IdentityView { provider_id, name, version }, end3)),
                None => None,
            },
            None => None,
        },
        None => None,
    }
}

/// An identity that was written is read back.
pub proof fn lemma_identity_round_trip(b: Seq<u8>, at: int, id: IdentityView)
    requires
        identity_fits(id),
        holds_at(b, at, encode_identity(id)),
    ensures
        parse_identity(b, at) == Some((id, at + encode_identity(id).len())),
{
    let provider = encode_text(id.provider_id);
    let name = encode_text(id.name);
    let version = encode_optional(id.version);
    lemma_holds_split(b, at, provider + name, version);
    lemma_holds_split(b, at, provider, name);
    lemma_text_round_trip(b, at, id.provider_id);
    lemma_text_round_trip(b, at + provider.len(), id.name);
    lemma_optional_round_trip(b, at + provider.len() + name.len(), id.version);
}

/// The key under which the package of an identity is persisted.
pub open spec fn key_bytes(id: IdentityView) -> Seq<u8> {
    encode_identity(id)
}

/// The identity that a key names; nothing where the bytes are no key.
pub open spec fn key_from(b: Seq<u8>) -> Option<IdentityView> {
    match parse_identity(b, 0) {
        Some((id, end)) => if end == b.len() {
            Some(id)
        } else {
            None
        },
        None => None,
    }
}

/// The key of an identity names that identity.
pub proof fn lemma_key_round_trip(id: IdentityView)
    requires
        identity_fits(id),
    ensures
        key_from(key_bytes(id)) == Some(id),
{
    let b = key_bytes(id);
    assert(b.subrange(0, b.len() as int) =~= b);
    lemma_identity_round_trip(b, 0, id);
}

/// The four bytes every persisted package starts with.
pub open spec fn magic() -> Seq<u8> {
    seq![0x49u8, 0x44u8, 0x58u8, 0x31u8]
}

/// The package can be written.
pub open spec fn package_fits(p: PackageView) -> bool {
    &&& identity_fits(p.identity)
    &&& entries_fit(p.entries)
}

/// The bytes under which a package is persisted.
pub open spec fn package_bytes(p: PackageView) -> Seq<u8> {
    magic() + encode_identity(p.identity) + encode_u64(p.indexed_at) + encode_u64(p.content_hash)
        + encode_entries(p.entries)
}

/// The package that the bytes persist; nothing where they persist none.
pub open spec fn package_from(b: Seq<u8>) -> Option<PackageView> {
    if holds_at(b, 0, magic()) {
        match parse_identity(b, 4) {
            Some((identity, end1)) => match parse_u64(b, end1) {
                Some((indexed_at, end2)) => match parse_u64(b, end2) {
                    Some((content_hash, end3)) => match parse_entries(b, end3) {
                        Some((entries, end)) => if end == b.len() {
                            Some(PackageView { identity, entries, indexed_at, content_hash })
                        } else {
                            None
                        },
                        None => None,
                    },
                    None => None,
                },
                None => None,
            },
            None => None,
        }
    } else {
        None
    }
}

/// A package that was persisted is read back as it was.
pub proof fn lemma_package_round_trip(p: PackageView)
    requires
        p.well_formed(),
        package_fits(p),
    ensures
        package_from(package_bytes(p)) == Some(p),
{
    let b = package_bytes(p);
    let identity = encode_identity(p.identity);
    let at = encode_u64(p.indexed_at);
    let hash = encode_u64(p.content_hash);
    let entries = encode_entries(p.entries);
    let end1 = 4 + identity.len() as int;
    assert(magic().len() == 4);
    assert(holds_at(b, 0, b)) by {
        assert(b.subrange(0, b.len() as int) =~= b);
    }
    assert(holds_at(b, 0, magic()) && holds_at(b, 4, identity) && holds_at(b, end1, at) && holds_at(
        b,
        end1 + at.len(),
        hash,
    ) && holds_at(b, end1 + at.len() + hash.len(), entries)) by {
        lemma_holds_split(b, 0, magic() + identity + at + hash, entries);
        lemma_holds_split(b, 0, magic() + identity + at, hash);
        lemma_holds_split(b, 0, magic() + identity, at);
        lemma_holds_split(b, 0, magic(), identity);
    }
    assert(parse_identity(b, 4) == Some((p.identity, end1))) by {
        lemma_identity_round_trip(b, 4, p.identity);
    }
    assert(at.len() == 8 && parse_u64(b, end1) == Some((p.indexed_at, end1 + 8))) by {
        lemma_u64_round_trip(b, end1, p.indexed_at);
    }
    assert(hash.len() == 8 && parse_u64(b, end1 + 8) == Some((p.content_hash, end1 + 16))) by {
        lemma_u64_round_trip(b, end1 + 8, p.content_hash);
    }
    assert(parse_entries(b, end1 + 16) == Some((p.entries, b.len() as int))) by {
        lemma_entries_round_trip(b, end1 + 16, p.entries);
    }
}

/// The bytes between two positions are those up to a position between them
/// and those from there on.
proof fn lemma_join(b: Seq<u8>, from: int, mid: int, to: int)
    requires
        0 <= from <= mid <= to <= b.len(),
    ensures
        b.subrange(from, to) == b.subrange(from, mid) + b.subrange(mid, to),
{
    assert(b.subrange(from, to) =~= b.subrange(from, mid) + b.subrange(mid, to));
}

/// A number that is read stands there as it is written.
pub proof fn lemma_u64_canonical(b: Seq<u8>, at: int, x: u64, end: int)
    requires
        parse_u64(b, at) == Some((x, end)),
    ensures
        end == at + 8,
        0 <= at,
        end <= b.len(),
        b.subrange(at, end) == encode_u64(x),
{
    lemma_auto_spec_u64_to_from_le_bytes();
}

/// A text that is read stands there as it is written.
pub proof fn lemma_text_canonical(b: Seq<u8>, at: int, s: Seq<char>, end: int)
    requires
        parse_text(b, at) == Some((s, end)),
    ensures
        0 <= at <= end <= b.len(),
        b.subrange(at, end) == encode_text(s),
        text_fits(s),
{
    let (n, p) = parse_u64(b, at)->Some_0;
    lemma_u64_canonical(b, at, n, p);
    decode_utf8_encode_utf8(b.subrange(p, p + n));
    lemma_join(b, at, p, end);
}

/// An optional text that is read stands there as it is written.
pub proof fn lemma_optional_canonical(b: Seq<u8>, at: int, s: Option<Seq<char>>, end: int)
    requires
        parse_optional(b, at) == Some((s, end)),
    ensures
        0 <= at <= end <= b.len(),
        b.subrange(at, end) == encode_optional(s),
        optional_fits(s),
{
    if b[at] == 1 {
        lemma_text_canonical(b, at + 1, s->Some_0, end);
        lemma_join(b, at, at + 1, end);
        assert(b.subrange(at, at + 1) =~= seq![1u8]);
    } else {
        assert(b.subrange(at, at + 1) =~= seq![0u8]);
    }
}

/// Texts that are read one after the other stand there as they are written.
pub proof fn lemma_each_text_canonical(b: Seq<u8>, at: int, n: nat, v: Seq<Seq<char>>, end: int)
    requires
        0 <= at <= b.len(),
        parse_each_text(b, at, n) == Some((v, end)),
    ensures
        at <= end <= b.len(),
        v.len() == n,
        b.subrange(at, end) == encode_each_text(v),
        forall|i: int| 0 <= i < v.len() ==> text_fits(#[trigger] v[i]),
    decreases n,
{
    if n == 0 {
        assert(b.subrange(at, at) =~= Seq::<u8>::empty());
    } else {
        let (rest, p) = parse_each_text(b, at, (n - 1) as nat)->Some_0;
        let (t, q) = parse_text(b, p)->Some_0;
        lemma_each_text_canonical(b, at, (n - 1) as nat, rest, p);
        lemma_text_canonical(b, p, t, q);
        lemma_join(b, at, p, end);
        assert(v.drop_last() =~= rest);
    }
}

/// A list of texts that is read stands there as it is written.
pub proof fn lemma_texts_canonical(b: Seq<u8>, at: int, v: Seq<Seq<char>>, end: int)
    requires
        parse_texts(b, at) == Some((v, end)),
    ensures
        0 <= at <= end <= b.len(),
        b.subrange(at, end) == encode_texts(v),
        texts_fit(v),
{
    let (n, p) = parse_u64(b, at)->Some_0;
    lemma_u64_canonical(b, at, n, p);
    lemma_each_text_canonical(b, p, n as nat, v, end);
    lemma_join(b, at, p, end);
}

/// An entry that is read stands there as it is written, and has a path and
/// a title.
pub proof fn lemma_entry_canonical(b: Seq<u8>, at: int, e: EntryView, end: int)
    requires
        parse_entry(b, at) == Some((e, end)),
    ensures
        0 <= at <= end <= b.len(),
        b.subrange(at, end) == encode_entry(e),
        entry_fits(e),
        e.well_formed(),
{
    let (path, end1) = parse_texts(b, at)->Some_0;
    let (title, end2) = parse_text(b, end1 + 1)->Some_0;
    let (body, end3) = parse_text(b, end2)->Some_0;
    let (source_url, end4) = parse_optional(b, end3)->Some_0;
    lemma_texts_canonical(b, at, path, end1);
    lemma_text_canonical(b, end1 + 1, title, end2);
    lemma_text_canonical(b, end2, body, end3);
    lemma_optional_canonical(b, end3, source_url, end4);
    assert(b.subrange(end1, end1 + 1) =~= seq![kind_code(e.kind)]);
    lemma_join(b, at, end1, end1 + 1);
    lemma_join(b, at, end1 + 1, end2);
    lemma_join(b, at, end2, end3);
    lemma_join(b, at, end3, end4);
}

/// Entries that are read one after the other stand there as they are
/// written.
pub proof fn lemma_each_entry_canonical(b: Seq<u8>, at: int, n: nat, v: Seq<EntryView>, end: int)
    requires
        0 <= at <= b.len(),
        parse_each_entry(b, at, n) == Some((v, end)),
    ensures
        at <= end <= b.len(),
        v.len() == n,
        b.subrange(at, end) == encode_each_entry(v),
        forall|i: int| 0 <= i < v.len() ==> entry_fits(#[trigger] v[i]) && v[i].well_formed(),
    decreases n,
{
    if n == 0 {
        assert(b.subrange(at, at) =~= Seq::<u8>::empty());
    } else {
        let (rest, p) = parse_each_entry(b, at, (n - 1) as nat)->Some_0;
        let (e, q) = parse_entry(b, p)->Some_0;
        lemma_each_entry_canonical(b, at, (n - 1) as nat, rest, p);
        lemma_entry_canonical(b, p, e, q);
        lemma_join(b, at, p, end);
        assert(v.drop_last() =~= rest);
    }
}

/// An identity that is read stands there as it is written.
pub proof fn lemma_identity_canonical(b: Seq<u8>, at: int, id: IdentityView, end: int)
    requires
        parse_identity(b, at) == Some((id, end)),
    ensures
        0 <= at <= end <= b.len(),
        b.subrange(at, end) == encode_identity(id),
        identity_fits(id),
{
    let (provider_id, end1) = parse_text(b, at)->Some_0;
    let (name, end2) = parse_text(b, end1)->Some_0;
    let (version, end3) = parse_optional(b, end2)->Some_0;
    lemma_text_canonical(b, at, provider_id, end1);
    lemma_text_canonical(b, end1, name, end2);
    lemma_optional_canonical(b, end2, version, end3);
    lemma_join(b, at, end1, end2);
    lemma_join(b, at, end2, end3);
}

/// Bytes name an identity only if they are its key: no identity has two
/// keys.
pub proof fn lemma_key_canonical(b: Seq<u8>, id: IdentityView)
    requires
        key_from(b) == Some(id),
    ensures
        key_bytes(id) == b,
        identity_fits(id),
{
    lemma_identity_canonical(b, 0, id, b.len() as int);
    assert(b.subrange(0, b.len() as int) =~= b);
}

/// A list of entries that is read stands there as it is written.
pub proof fn lemma_entries_canonical(b: Seq<u8>, at: int, v: Seq<EntryView>, end: int)
    requires
        parse_entries(b, at) == Some((v, end)),
    ensures
        0 <= at <= end <= b.len(),
        b.subrange(at, end) == encode_entries(v),
        entries_fit(v),
        forall|i: int| 0 <= i < v.len() ==> (#[trigger] v[i]).well_formed(),
{
    let (n, p) = parse_u64(b, at)->Some_0;
    lemma_u64_canonical(b, at, n, p);
    lemma_each_entry_canonical(b, p, n as nat, v, end);
    lemma_join(b, at, p, end);
}

/// Bytes persist a package only if they are the bytes that the package is
/// persisted under: reading accepts exactly what writing produces.
pub proof fn lemma_package_canonical(b: Seq<u8>, p: PackageView)
    requires
        package_from(b) == Some(p),
    ensures
        package_bytes(p) == b,
        package_fits(p),
        p.well_formed(),
{
    let (identity, end1) = parse_identity(b, 4)->Some_0;
    let (indexed_at, end2) = parse_u64(b, end1)->Some_0;
    let (content_hash, end3) = parse_u64(b, end2)->Some_0;
    let end = b.len() as int;
    assert(magic().len() == 4);
    assert(b.subrange(0, 4) == magic());
    lemma_identity_canonical(b, 4, identity, end1);
    lemma_u64_canonical(b, end1, indexed_at, end2);
    lemma_u64_canonical(b, end2, content_hash, end3);
    lemma_entries_canonical(b, end3, p.entries, end);
    let head = b.subrange(0, 4) + b.subrange(4, end1);
    assert(b.subrange(0, end1) == head) by {
        lemma_join(b, 0, 4, end1);
    }
    assert(b.subrange(0, end2) == head + b.subrange(end1, end2)) by {
        lemma_join(b, 0, end1, end2);
    }
    assert(b.subrange(0, end3) == head + b.subrange(end1, end2) + b.subrange(end2, end3)) by {
        lemma_join(b, 0, end2, end3);
    }
    assert(b.subrange(0, end) == head + b.subrange(end1, end2) + b.subrange(end2, end3) + b.subrange(
        end3,
        end,
    )) by {
        lemma_join(b, 0, end3, end);
    }
    assert(b.subrange(0, end) =~= b);
}

/// The byte that stands for `kind`.
fn kind_to_code(kind: DocKind) -> (code: u8)
    ensures
        code == kind_code(kind),
{
    match kind {
        DocKind::Module => 0,
        DocKind::Type => 1,
        DocKind::Function => 2,
        DocKind::Constant => 3,
        DocKind::Trait => 4,
        DocKind::Other => 5,
    }
}

/// The kind that `code` stands for, if any.
fn kind_from_code(code: u8) -> (kind: Option<DocKind>)
    ensures
        kind == kind_of(code),
{
    match code {
        0 => Some(DocKind::Module),
        1 => Some(DocKind::Type),
        2 => Some(DocKind::Function),
        3 => Some(DocKind::Constant),
        4 => Some(DocKind::Trait),
        5 => Some(DocKind::Other),
        _ => None,
    }
}

/// Appends the bytes of an entry.
fn write_entry(out: &mut Vec<u8>, entry: &DocEntry)
    ensures
        final(out)@ == old(out)@ + encode_entry(entry@),
        entry_fits(entry@),
        entry@.well_formed(),
{
    write_texts(out, entry.path());
    out.push(kind_to_code(entry.kind()));
    write_text(out, entry.title().as_str());
    write_text(out, entry.body().as_str());
    write_optional(out, entry.source_url());
    assert(out@ =~= old(out)@ + encode_entry(entry@));
}

/// Appends the bytes of a list of entries.
fn write_entries(out: &mut Vec<u8>, v: &Vec<DocEntry>)
    ensures
        final(out)@ == old(out)@ + encode_entries(entry_views(v@)),
        entries_fit(entry_views(v@)),
        forall|i: int| 0 <= i < v@.len() ==> (#[trigger] entry_views(v@)[i]).well_formed(),
{
    let ghost all = entry_views(v@);
    let n: usize = v.len();
    write_u64(out, n as u64);
    let ghost head = out@;
    let mut i: usize = 0;
    while i < v.len()
        invariant
            i <= v@.len(),
            all == entry_views(v@),
            head == old(out)@ + encode_u64(v@.len() as u64),
            out@ == head + encode_each_entry(all.take(i as int)),
            forall|j: int| 0 <= j < i ==> entry_fits(#[trigger] all[j]) && all[j].well_formed(),
        decreases v@.len() - i,
    {
        write_entry(out, &v[i]);
        proof {
            assert(all.take(i + 1).drop_last() =~= all.take(i as int));
            assert(all.take(i + 1).last() == v@[i as int]@);
            assert(out@ =~= head + encode_each_entry(all.take(i + 1)));
        }
        i += 1;
    }
    proof {
        assert(all.take(i as int) =~= all);
        assert(out@ =~= old(out)@ + encode_entries(all));
    }
}

/// Appends the bytes of an identity.
fn write_identity(out: &mut Vec<u8>, id: &PackageIdentity)
    ensures
        final(out)@ == old(out)@ + encode_identity(id@),
        identity_fits(id@),
{
    write_text(out, id.provider_id.as_str());
    write_text(out, id.name.as_str());
    write_optional(out, &id.version);
    assert(out@ =~= old(out)@ + encode_identity(id@));
}

/// Reads the entry that stands at `at`.
fn read_entry(bytes: &[u8], at: usize) -> (r: Option<(DocEntry, usize)>)
    ensures
        match r {
            Some((e, p)) => parse_entry(bytes@, at as int) == Some((e@, p as int)) && p
                <= bytes@.len(),
            None => parse_entry(bytes@, at as int) is None,
        },
{
    let (path, end1) = match read_texts(bytes, at) {
        Some(pair) => pair,
        None => { return None; },
    };
    if end1 >= bytes.len() {
        return None;
    }
    let kind = match kind_from_code(bytes[end1]) {
        Some(kind) => kind,
        None => { return None; },
    };
    let (title, end2) = match read_text(bytes, end1 + 1) {
        Some(pair) => pair,
        None => { return None; },
    };
    let (body, end3) = match read_text(bytes, end2) {
        Some(pair) => pair,
        None => { return None; },
    };
    let (source_url, end4) = match read_optional(bytes, end3) {
        Some(pair) => pair,
        None => { return None; },
    };
    match DocEntry::new(path, kind, title, body, source_url) {
        Ok(entry) => Some((entry, end4)),
        Err(_) => None,
    }
}

/// Reads the list of entries that stands at `at`.
fn read_entries(bytes: &[u8], at: usize) -> (r: Option<(Vec<DocEntry>, usize)>)
    ensures
        match r {
            Some((v, p)) => parse_entries(bytes@, at as int) == Some((entry_views(v@), p as int))
                && p <= bytes@.len(),
            None => parse_entries(bytes@, at as int) is None,
        },
{
    let (n, start) = match read_u64(bytes, at) {
        Some(pair) => pair,
        None => { return None; },
    };
    let mut v: Vec<DocEntry> = Vec::new();
    let mut pos: usize = start;
    let mut i: u64 = 0;
    assert(entry_views(v@) =~= Seq::<EntryView>::empty());
    while i < n
        invariant
            i <= n,
            pos <= bytes@.len(),
            parse_u64(bytes@, at as int) == Some((n, start as int)),
            parse_each_entry(bytes@, start as int, i as nat) == Some((entry_views(v@), pos as int)),
        decreases n - i,
    {
        match read_entry(bytes, pos) {
            Some((e, p)) => {
                let ghost held = entry_views(v@);
                let ghost added = e@;
                v.push(e);
                assert(entry_views(v@) =~= held.push(added));
                pos = p;
            },
            None => {
                proof {
                    assert(parse_each_entry(bytes@, start as int, (i + 1) as nat) is None);
                    lemma_each_entry_fails(bytes@, start as int, (i + 1) as nat, n as nat);
                }
                return None;
            },
        }
        i += 1;
    }
    Some((v, pos))
}

/// Reads the identity that stands at `at`.
fn read_identity(bytes: &[u8], at: usize) -> (r: Option<(PackageIdentity, usize)>)
    ensures
        match r {
            Some((id, p)) => parse_identity(bytes@, at as int) == Some((id@, p as int)) && p
                <= bytes@.len(),
            None => parse_identity(bytes@, at as int) is None,
        },
{
    let (provider_id, end1) = match read_text(bytes, at) {
        Some(pair) => pair,
        None => { return None; },
    };
    let (name, end2) = match read_text(bytes, end1) {
        Some(pair) => pair,
        None => { return None; },
    };
    let (version, end3) = match read_optional(bytes, end2) {
        Some(pair) => pair,
        None => { return None; },
    };
    Some((PackageIdentity { provider_id, name, version }, end3))
}

/// The key under which the package of `id` is persisted. Reading the key
/// gives the identity back.
pub fn encode_key(id: &PackageIdentity) -> (key: Vec<u8>)
    ensures
        key@ == key_bytes(id@),
        key_from(key@) == Some(id@),
{
    let mut out: Vec<u8> = Vec::new();
    write_identity(&mut out, id);
    proof {
        assert(out@ =~= key_bytes(id@));
        lemma_key_round_trip(id@);
    }
    out
}

/// The identity that `key` names, if it is a key: the identity whose key it
/// is.
pub fn decode_key(key: &[u8]) -> (r: Option<PackageIdentity>)
    ensures
        match r {
            Some(id) => key_from(key@) == Some(id@) && key_bytes(id@) == key@,
            None => key_from(key@) is None,
        },
{
    match read_identity(key, 0) {
        Some((id, end)) => if end == key.len() {
            proof {
                lemma_key_canonical(key@, id@);
            }
            Some(id)
        } else {
            None
        },
        None => None,
    }
}

/// The bytes under which `pkg` is persisted. Reading them gives the package
/// back as it was.
pub fn encode_package(pkg: &IndexedPackage) -> (bytes: Vec<u8>)
    ensures
        bytes@ == package_bytes(pkg@),
        package_from(bytes@) == Some(pkg@),
{
    let mut out: Vec<u8> = Vec::new();
    out.push(0x49u8);
    out.push(0x44u8);
    out.push(0x58u8);
    out.push(0x31u8);
    assert(out@ =~= magic());
    write_identity(&mut out, &pkg.identity);
    write_u64(&mut out, pkg.indexed_at);
    write_u64(&mut out, pkg.content_hash);
    write_entries(&mut out, &pkg.entries);
    proof {
        assert(out@ =~= package_bytes(pkg@));
        lemma_package_round_trip(pkg@);
    }
    out
}

/// The package that `bytes` persist, if they persist one: the package that
/// is persisted under exactly these bytes.
pub fn decode_package(bytes: &[u8]) -> (r: Option<IndexedPackage>)
    ensures
        match r {
            Some(pkg) => package_from(bytes@) == Some(pkg@) && package_bytes(pkg@) == bytes@,
            None => package_from(bytes@) is None,
        },
{
    if bytes.len() < 4 || bytes[0] != 0x49u8 || bytes[1] != 0x44u8 || bytes[2] != 0x58u8
        || bytes[3] != 0x31u8 {
        proof {
            if holds_at(bytes@, 0, magic()) {
                let head = bytes@.subrange(0, 4);
                assert(head[0] == bytes@[0] && head[1] == bytes@[1] && head[2] == bytes@[2]
                    && head[3] == bytes@[3]);
            }
        }
        return None;
    }
    assert(bytes@.subrange(0, 4) =~= magic());
    let (identity, end1) = match read_identity(bytes, 4) {
        Some(pair) => pair,
        None => { return None; },
    };
    let (indexed_at, end2) = match read_u64(bytes, end1) {
        Some(pair) => pair,
        None => { return None; },
    };
    let (content_hash, end3) = match read_u64(bytes, end2) {
        Some(pair) => pair,
        None => { return None; },
    };
    let (entries, end) = match read_entries(bytes, end3) {
        Some(pair) => pair,
        None => { return None; },
    };
    if end != bytes.len() {
        return None;
    }
    let pkg = IndexedPackage { identity, entries, indexed_at, content_hash };
    proof {
        lemma_package_canonical(bytes@, pkg@);
    }
    Some(pkg)
}

} // verus!
