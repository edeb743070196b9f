//! What a torrent file says.

use crate::bencode::grammar::{info_raw, parsed, Fault};
use crate::bencode::Bencode;
use crate::laws::{binds, is_text, lemma_binds, lemma_is_text, unbound};
use crate::metainfo::{
    file_at, files_in, joined_path, meta_of, meta_of_dicts, seed_url, texts_in, tiers_in,
    unsafe_component, FileModel, MetaFault, MetaModel,
};
use crate::outside::sha1_of;
use vstd::prelude::*;

verus! {

/// A torrent's pieces and its name: what every info dictionary says.
pub open spec fn describes(
    info: Seq<(Seq<char>, Bencode)>,
    name: Seq<char>,
    piece_length: int,
    raw: Seq<u8>,
) -> bool {
    &&& binds(info, "name"@, Bencode::Bytes(vstd::utf8::encode_utf8(name)))
    &&& binds(info, "piece length"@, Bencode::Integer(piece_length))
    &&& piece_length >= 0
    &&& binds(info, "pieces"@, Bencode::Bytes(raw))
    &&& raw.len() % 20 == 0
}

/// The digests of the pieces stand one after the other, twenty bytes each.
pub open spec fn splits_into(raw: Seq<u8>, pieces: Seq<Seq<u8>>) -> bool {
    &&& 20 * pieces.len() == raw.len()
    &&& forall|i: int, j: int|
        0 <= i < pieces.len() && 0 <= j < 20 ==> (#[trigger] pieces[i]).len() == 20 && (
        #[trigger] pieces[i][j]) == raw[20 * i + j]
}

/// A torrent of one file: the file has the torrent's name and the length that
/// is given, and stands at the start.
pub proof fn law_single_file(
    hash: Seq<u8>,
    root: Seq<(Seq<char>, Bencode)>,
    info: Seq<(Seq<char>, Bencode)>,
    name: Seq<char>,
    piece_length: int,
    raw: Seq<u8>,
    length: int,
)
    requires
        describes(info, name, piece_length, raw),
        unbound(info, "files"@),
        binds(info, "length"@, Bencode::Integer(length)),
        length >= 0,
    ensures
        meta_of_dicts(hash, root, info) matches Ok(m) && {
            &&& m.info_hash == hash
            &&& m.name == name
            &&& m.piece_length == piece_length
            &&& splits_into(raw, m.pieces)
            &&& m.files == seq![FileModel { path: name, length, offset: 0 }]
            &&& m.total_size == length
        },
{
    lemma_described(info, name, piece_length, raw);
    lemma_binds(info, "files"@, Bencode::Integer(0));
    lemma_binds(info, "length"@, Bencode::Integer(length));
    lemma_splits(raw);
}

proof fn lemma_described(
    info: Seq<(Seq<char>, Bencode)>,
    name: Seq<char>,
    piece_length: int,
    raw: Seq<u8>,
)
    requires
        describes(info, name, piece_length, raw),
    ensures
        crate::metainfo::name_of_info(info) == name,
        crate::metainfo::integer_field(info, "piece length"@) == Some(piece_length),
        crate::metainfo::bytes_field(info, "pieces"@) == Some(raw),
{
    let v = Bencode::Bytes(vstd::utf8::encode_utf8(name));
    lemma_binds(info, "name"@, v);
    lemma_is_text(v, name);
    lemma_binds(info, "piece length"@, Bencode::Integer(piece_length));
    lemma_binds(info, "pieces"@, Bencode::Bytes(raw));
}

proof fn lemma_splits(raw: Seq<u8>)
    requires
        raw.len() % 20 == 0,
    ensures
        splits_into(raw, crate::metainfo::groups_of_20(raw)),
{
}

/// The entries of a file list: each gives the length of a file and where it
/// lies below the torrent's name.
pub open spec fn lists_file(
    b: Bencode,
    length: int,
    parts: Seq<Seq<char>>,
) -> bool {
    b matches Bencode::Dict(e) && {
        &&& binds(e, "length"@, Bencode::Integer(length))
        &&& length >= 0
        &&& exists|l: Seq<Bencode>| #[trigger]
            binds(e, "path"@, Bencode::List(l)) && l.len() == parts.len() && forall|k: int|
                0 <= k < l.len() ==> is_text(#[trigger] l[k], parts[k])
        &&& forall|k: int|
            0 <= k < parts.len() ==> safe_part(#[trigger] parts[k])
    }
}

/// A part of a path that stays where it is put.
pub open spec fn safe_part(s: Seq<char>) -> bool {
    &&& forall|i: int|
        0 <= i < s.len() ==> (#[trigger] s[i]) != '/' && s[i] != '\\' && s[i] != '\0'
    &&& forall|i: int| 0 <= i < s.len() - 1 ==> !((#[trigger] s[i]) == '.' && s[i + 1] == '.')
}

/// The parts of a path behind a base, each behind a slash.
pub open spec fn below(base: Seq<char>, parts: Seq<Seq<char>>, n: int) -> Seq<char>
    decreases n,
{
    if n <= 0 {
        base
    } else {
        below(base, parts, n - 1) + seq!['/'] + parts[n - 1]
    }
}

proof fn lemma_texts_in(l: Seq<Bencode>, parts: Seq<Seq<char>>)
    requires
        l.len() == parts.len(),
        forall|k: int| 0 <= k < l.len() ==> is_text(#[trigger] l[k], parts[k]),
    ensures
        texts_in(l) == parts,
    decreases l.len(),
{
    if l.len() > 0 {
        let k = l.len() - 1;
        assert(is_text(l[k], parts[k]));
        lemma_is_text(l[k], parts[k]);
        assert forall|j: int| 0 <= j < l.drop_last().len() implies is_text(
            #[trigger] l.drop_last()[j],
            parts.drop_last()[j],
        ) by {
            assert(is_text(l[j], parts[j]));
        }
        lemma_texts_in(l.drop_last(), parts.drop_last());
        assert(parts.drop_last().push(parts[k]) =~= parts);
    } else {
        assert(parts =~= seq![]);
    }
}

proof fn lemma_below(base: Seq<char>, parts: Seq<Seq<char>>)
    requires
        forall|k: int| 0 <= k < parts.len() ==> safe_part(#[trigger] parts[k]),
    ensures
        joined_path(base, parts) == Some(below(base, parts, parts.len() as int)),
    decreases parts.len(),
{
    if parts.len() > 0 {
        let n = parts.len() - 1;
        let front = parts.drop_last();
        assert forall|k: int| 0 <= k < front.len() implies safe_part(#[trigger] front[k]) by {
            assert(front[k] == parts[k]);
        }
        lemma_below(base, front);
        lemma_below_front(base, parts, front, n);
        assert(safe_part(parts[n]));
        assert(!unsafe_component(parts.last()));
        let p = below(base, parts, n);
        assert(p.push('/') + parts.last() =~= p + seq!['/'] + parts[n]);
    }
}

proof fn lemma_below_front(base: Seq<char>, parts: Seq<Seq<char>>, front: Seq<Seq<char>>, n: int)
    requires
        0 <= n <= front.len(),
        front == parts.drop_last(),
        parts.len() > 0,
    ensures
        below(base, front, n) == below(base, parts, n),
    decreases n,
{
    if n > 0 {
        lemma_below_front(base, parts, front, n - 1);
        assert(front[n - 1] == parts[n - 1]);
    }
}

/// The length of the first `n` files.
pub open spec fn length_of(lengths: Seq<int>, n: int) -> int
    decreases n,
{
    if n <= 0 {
        0
    } else {
        length_of(lengths, n - 1) + lengths[n - 1]
    }
}

proof fn lemma_length_grows(lengths: Seq<int>, n: int, m: int)
    requires
        0 <= n <= m <= lengths.len(),
        forall|k: int| 0 <= k < lengths.len() ==> #[trigger] lengths[k] >= 0,
    ensures
        0 <= length_of(lengths, n) <= length_of(lengths, m),
    decreases m,
{
    if n < m {
        lemma_length_grows(lengths, n, m - 1);
    } else if n > 0 {
        lemma_length_grows(lengths, n - 1, n - 1);
    }
}

/// The files of a list stand one behind the other, each with the length that
/// its entry gives, below the torrent's name.
pub proof fn law_listed_files(
    l: Seq<Bencode>,
    base: Seq<char>,
    lengths: Seq<int>,
    parts: Seq<Seq<Seq<char>>>,
)
    requires
        l.len() == lengths.len() == parts.len(),
        forall|k: int| 0 <= k < l.len() ==> lists_file(#[trigger] l[k], lengths[k], parts[k]),
        length_of(lengths, lengths.len() as int) < 0x1_0000_0000_0000_0000,
    ensures
        files_in(l, base) matches Ok((files, total)) && {
            &&& files.len() == l.len()
            &&& total == length_of(lengths, lengths.len() as int)
            &&& forall|k: int|
                0 <= k < files.len() ==> (#[trigger] files[k]) == (FileModel {
                    path: below(base, parts[k], parts[k].len() as int),
                    length: lengths[k],
                    offset: length_of(lengths, k),
                })
        },
    decreases l.len(),
{
    assert forall|k: int| 0 <= k < lengths.len() implies #[trigger] lengths[k] >= 0 by {
        assert(lists_file(l[k], lengths[k], parts[k]));
    }
    if l.len() > 0 {
        let n = l.len() - 1;
        let front = lengths.drop_last();
        assert forall|k: int| 0 <= k < l.drop_last().len() implies lists_file(
            #[trigger] l.drop_last()[k],
            front[k],
            parts.drop_last()[k],
        ) by {
            assert(lists_file(l[k], lengths[k], parts[k]));
        }
        lemma_length_front(lengths, n);
        lemma_length_grows(lengths, n, n + 1);
        law_listed_files(l.drop_last(), base, front, parts.drop_last());
        let (before, offset) = files_in(l.drop_last(), base)->Ok_0;
        assert(lists_file(l[n], lengths[n], parts[n]));
        let e = l[n]->Dict_0;
        let list = choose|list: Seq<Bencode>| #[trigger]
            binds(e, "path"@, Bencode::List(list)) && list.len() == parts[n].len() && forall|k: int|
                0 <= k < list.len() ==> is_text(#[trigger] list[k], parts[n][k]);
        lemma_binds(e, "length"@, Bencode::Integer(lengths[n]));
        lemma_binds(e, "path"@, Bencode::List(list));
        lemma_texts_in(list, parts[n]);
        lemma_below(base, parts[n]);
        let f = FileModel {
            path: below(base, parts[n], parts[n].len() as int),
            length: lengths[n],
            offset,
        };
        assert(file_at(l.last(), base, offset) == Ok::<FileModel, Seq<char>>(f));
        let files = before.push(f);
        assert forall|k: int| 0 <= k < files.len() implies (#[trigger] files[k]) == (FileModel {
            path: below(base, parts[k], parts[k].len() as int),
            length: lengths[k],
            offset: length_of(lengths, k),
        }) by {
            if k < n {
                assert(files[k] == before[k]);
                lemma_length_front(lengths, k);
            }
        }
    }
}

proof fn lemma_length_front(lengths: Seq<int>, n: int)
    requires
        0 <= n < lengths.len(),
    ensures
        length_of(lengths.drop_last(), n) == length_of(lengths, n),
    decreases n,
{
    if n > 0 {
        lemma_length_front(lengths, n - 1);
    }
}

/// What else a torrent file says, where it says it.
pub proof fn law_file_fields(
    hash: Seq<u8>,
    root: Seq<(Seq<char>, Bencode)>,
    info: Seq<(Seq<char>, Bencode)>,
    m: MetaModel,
    t: Seq<char>,
    n: int,
)
    requires
        meta_of_dicts(hash, root, info) == Ok::<MetaModel, MetaFault>(m),
    ensures
        binds(root, "announce"@, Bencode::Bytes(vstd::utf8::encode_utf8(t))) ==> m.announce
            == Some(t),
        binds(root, "comment"@, Bencode::Bytes(vstd::utf8::encode_utf8(t))) ==> m.comment == Some(
            t,
        ),
        binds(root, "created by"@, Bencode::Bytes(vstd::utf8::encode_utf8(t))) ==> m.created_by
            == Some(t),
        binds(root, "creation date"@, Bencode::Integer(n)) ==> m.creation_date == Some(n),
        binds(info, "private"@, Bencode::Integer(n)) ==> m.is_private == (n == 1),
        unbound(root, "announce"@) ==> m.announce is None,
        unbound(root, "announce-list"@) ==> m.announce_list.len() == 0,
        unbound(root, "url-list"@) ==> m.url_list.len() == 0,
        unbound(root, "comment"@) ==> m.comment is None,
        unbound(root, "created by"@) ==> m.created_by is None,
        unbound(root, "creation date"@) ==> m.creation_date is None,
        unbound(info, "private"@) ==> !m.is_private,
{
    let v = Bencode::Bytes(vstd::utf8::encode_utf8(t));
    lemma_is_text(v, t);
    lemma_binds(root, "announce"@, v);
    lemma_binds(root, "comment"@, v);
    lemma_binds(root, "created by"@, v);
    lemma_binds(root, "creation date"@, Bencode::Integer(n));
    lemma_binds(info, "private"@, Bencode::Integer(n));
    lemma_binds(root, "announce-list"@, v);
    lemma_binds(root, "url-list"@, v);
}

/// The web seeds of a torrent file are the texts that it lists, in order, and
/// its trackers are the tiers that it lists, in order.
pub proof fn law_listed_sources(
    hash: Seq<u8>,
    root: Seq<(Seq<char>, Bencode)>,
    info: Seq<(Seq<char>, Bencode)>,
    m: MetaModel,
    l: Seq<Bencode>,
    parts: Seq<Seq<char>>,
    tiers: Seq<Bencode>,
    lists: Seq<Seq<Bencode>>,
    trackers: Seq<Seq<Seq<char>>>,
)
    requires
        meta_of_dicts(hash, root, info) == Ok::<MetaModel, MetaFault>(m),
        binds(root, "url-list"@, Bencode::List(l)),
        l.len() == parts.len(),
        forall|k: int| 0 <= k < l.len() ==> is_text(#[trigger] l[k], parts[k]),
        binds(root, "announce-list"@, Bencode::List(tiers)),
        tiers.len() == lists.len() == trackers.len(),
        forall|k: int| 0 <= k < tiers.len() ==> #[trigger] tiers[k] == Bencode::List(lists[k]),
        forall|k: int| 0 <= k < lists.len() ==> lists_texts(#[trigger] lists[k], trackers[k]),
    ensures
        m.url_list == parts,
        m.announce_list == trackers,
{
    lemma_binds(root, "url-list"@, Bencode::List(l));
    lemma_binds(root, "announce-list"@, Bencode::List(tiers));
    lemma_texts_in(l, parts);
    lemma_tiers(tiers, lists, trackers);
}

/// A list holds texts.
pub open spec fn lists_texts(l: Seq<Bencode>, t: Seq<Seq<char>>) -> bool {
    l.len() == t.len() && forall|k: int| 0 <= k < l.len() ==> is_text(#[trigger] l[k], t[k])
}

proof fn lemma_tiers(
    tiers: Seq<Bencode>,
    lists: Seq<Seq<Bencode>>,
    trackers: Seq<Seq<Seq<char>>>,
)
    requires
        tiers.len() == lists.len() == trackers.len(),
        forall|k: int| 0 <= k < tiers.len() ==> #[trigger] tiers[k] == Bencode::List(lists[k]),
        forall|k: int| 0 <= k < lists.len() ==> lists_texts(#[trigger] lists[k], trackers[k]),
    ensures
        tiers_in(tiers) == trackers,
    decreases tiers.len(),
{
    if tiers.len() > 0 {
        let n = tiers.len() - 1;
        assert(tiers[n] == Bencode::List(lists[n]));
        assert(lists_texts(lists[n], trackers[n]));
        lemma_texts_in(lists[n], trackers[n]);
        assert forall|k: int| 0 <= k < tiers.drop_last().len() implies #[trigger] tiers.drop_last()[
            k] == Bencode::List(lists.drop_last()[k]) by {
            assert(tiers[k] == Bencode::List(lists[k]));
        }
        assert forall|k: int| 0 <= k < lists.drop_last().len() implies lists_texts(
            #[trigger] lists.drop_last()[k],
            trackers.drop_last()[k],
        ) by {
            assert(lists_texts(lists[k], trackers[k]));
        }
        lemma_tiers(tiers.drop_last(), lists.drop_last(), trackers.drop_last());
        assert(trackers.drop_last().push(trackers[n]) =~= trackers);
    } else {
        assert(trackers =~= seq![]);
    }
}

/// The identity of a torrent is the digest of its info dictionary as it stands
/// in the file.
pub proof fn law_identity(data: Seq<u8>, raw: Seq<u8>, m: MetaModel)
    requires
        info_raw(data) == Ok::<Seq<u8>, Fault>(raw),
        meta_of(data) == Ok::<MetaModel, MetaFault>(m),
    ensures
        m.info_hash == sha1_of(raw),
{
    assert(parsed(data) is Ok);
}

/// The address of a file at a web seed is the seed's address and the file's
/// path with one slash between them, which may be the seed's own.
pub proof fn law_seed_address(base: Seq<char>, path: Seq<char>)
    ensures
        seed_url(base, path) == base + path && base.len() > 0 && base[base.len() - 1] == '/'
            || seed_url(base, path) == base + seq!['/'] + path && (base.len() == 0 || base[base.len()
            - 1] != '/'),
{
    assert(base.push('/') + path =~= base + seq!['/'] + path);
}

/// A path with a part that could lead elsewhere is refused: one with a slash, a
/// backslash, a zero character or two dots in a row.
pub proof fn law_unsafe_refused(base: Seq<char>, parts: Seq<Seq<char>>, k: int, i: int)
    requires
        0 <= k < parts.len(),
        0 <= i < parts[k].len(),
        parts[k][i] == '/' || parts[k][i] == '\\' || parts[k][i] == '\0' || (i + 1
            < parts[k].len() && parts[k][i] == '.' && parts[k][i + 1] == '.'),
    ensures
        joined_path(base, parts) is None,
    decreases parts.len(),
{
    if k == parts.len() - 1 {
        let s = parts[k];
        assert(s.contains(s[i]));
        if s[i] == '.' {
            assert(s[i] == '.' && s[i + 1] == '.');
        }
        assert(unsafe_component(parts.last()));
    } else {
        assert(parts.drop_last()[k] == parts[k]);
        law_unsafe_refused(base, parts.drop_last(), k, i);
    }
}

} // verus!
