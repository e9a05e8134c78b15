//! The asset compiler: from the files found under a root directory to a
//! table of asset records sorted by name.
use vstd::prelude::*;
use vstd::slice::slice_to_vec;
use vstd::string::*;
use vstd::utf8::encode_utf8;

use blake2::Digest;

use crate::map::{asset_keys, Asset};
use crate::text::{
    bytes_lt, compare_bytes, lemma_lt_asymmetric, lemma_lt_irreflexive, lemma_lt_transitive,
    lemma_utf8_injective, same_text, strictly_sorted, Cmp,
};

verus! {

/// A file found under the asset root: its full path and its bytes.
pub struct SourceFile {
    pub path: String,
    pub content: Vec<u8>,
}

/// One compiled asset, owning its data.
#[derive(Debug)]
pub struct AssetRecord {
    pub name: String,
    pub content: Vec<u8>,
    pub content_type: String,
    pub digest: Vec<u8>,
}

/// An asset record as plain values.
pub struct AssetRecordView {
    pub name: Seq<char>,
    pub content: Seq<u8>,
    pub content_type: Seq<char>,
    pub digest: Seq<u8>,
}

impl View for AssetRecord {
    type V = AssetRecordView;

    open spec fn view(&self) -> AssetRecordView {
        AssetRecordView {
            name: self.name@,
            content: self.content@,
            content_type: self.content_type@,
            digest: self.digest@,
        }
    }
}

/// Why a set of files could not be compiled.
#[derive(Debug, PartialEq, Eq)]
pub enum Error {
    /// The file (second) does not lie under the root directory (first).
    FoundFileNotInSourceDirectory(String, String),
    /// Two files have this name relative to the root.
    DuplicatePath(String),
}

/// The MIME type that mime_guess gives a path, `application/octet-stream`
/// where it knows none.
pub uninterp spec fn mime_of(path: Seq<char>) -> Seq<char>;

/// The BLAKE2s-256 digest of a byte sequence.
pub uninterp spec fn blake2s256_of(data: Seq<u8>) -> Seq<u8>;

/// Relies on mime_guess::from_path and MimeGuess::first_or_octet_stream: the
/// type is looked up from the path's text alone.
#[verifier::external_body]
fn guess_content_type(path: &str) -> (r: String)
    ensures
        r@ == mime_of(path@),
{
    mime_guess::from_path(path).first_or_octet_stream().to_string()
}

/// Relies on blake2's `Blake2s256` digest: 32 bytes that depend on the
/// data alone.
#[verifier::external_body]
fn blake2s256(data: &[u8]) -> (r: Vec<u8>)
    ensures
        r@ == blake2s256_of(data@),
        r@.len() == 32,
{
    blake2::Blake2s256::digest(data).to_vec()
}

/// The name of `path` relative to `root`: what follows the root and one `/`
/// (none is needed where the root ends in `/`). `None` where the path does
/// not lie under the root, or names the root itself.
pub open spec fn relative_to(root: Seq<char>, path: Seq<char>) -> Option<Seq<char>> {
    let n = root.len() as int;
    let start = if n > 0 && root[n - 1] == '/' { n } else { n + 1 };
    if start < path.len() && path.subrange(0, n) == root && (start == n || path[n] == '/') {
        Some(path.skip(start))
    } else {
        None
    }
}

/// The record that a file under `root` compiles to, where it lies under it.
pub open spec fn record_of(root: Seq<char>, path: Seq<char>, content: Seq<u8>) -> AssetRecordView {
    AssetRecordView {
        name: relative_to(root, path).unwrap(),
        content: content,
        content_type: mime_of(path),
        digest: blake2s256_of(content),
    }
}

/// The error for a file that does not lie under `root`.
pub open spec fn is_not_in_root(e: Error, root: Seq<char>, path: Seq<char>) -> bool {
    e matches Error::FoundFileNotInSourceDirectory(r, p) && r@ == root && p@ == path
}

/// The name of `path` relative to `root`.
pub fn relative_name(root: &str, path: &str) -> (r: Result<String, Error>)
    ensures
        match r {
            Ok(name) => relative_to(root@, path@) == Some(name@),
            Err(e) => relative_to(root@, path@) is None && is_not_in_root(e, root@, path@),
        },
{
    let n = root.unicode_len();
    let m = path.unicode_len();
    let mut under = n < m;
    let mut start = n;
    if under {
        under = same_text(path.substring_char(0, n), root);
    }
    if under && !(n > 0 && root.get_char(n - 1) == '/') {
        under = path.get_char(n) == '/';
        start = n + 1;
    }
    if under && start < m {
        Ok(path.substring_char(start, m).to_owned())
    } else {
        Err(
            Error::FoundFileNotInSourceDirectory(
                root.to_owned(),
                path.to_owned(),
            ),
        )
    }
}

/// The record for one file under `root`: its relative name, its bytes, the
/// MIME type guessed from its path and the digest of its bytes.
pub fn make_record(root: &str, file: &SourceFile) -> (r: Result<AssetRecord, Error>)
    ensures
        match r {
            Ok(rec) => relative_to(root@, file.path@) is Some && rec@ == record_of(
                root@,
                file.path@,
                file.content@,
            ),
            Err(e) => relative_to(root@, file.path@) is None && is_not_in_root(
                e,
                root@,
                file.path@,
            ),
        },
{
    let name = relative_name(root, file.path.as_str())?;
    let content_type = guess_content_type(file.path.as_str());
    let digest = blake2s256(file.content.as_slice());
    let content = slice_to_vec(file.content.as_slice());
    Ok(AssetRecord { name, content, content_type, digest })
}

impl AssetRecord {
    /// The record as the asset table holds it, borrowing its data.
    pub fn as_asset(&self) -> (r: Asset<'_>)
        ensures
            r.name@ == self.name@,
            r.content@ == self.content@,
            r.content_type@ == self.content_type@,
            r.digest@ == self.digest@,
    {
        Asset {
            name: self.name.as_str(),
            content: self.content.as_slice(),
            content_type: self.content_type.as_str(),
            digest: self.digest.as_slice(),
        }
    }
}

/// The records as the asset table holds them, in the same order, so that a
/// sorted table stays sorted.
pub fn assets_of<'a>(records: &'a [AssetRecord]) -> (r: Vec<Asset<'a>>)
    ensures
        r@.len() == records@.len(),
        forall|i: int|
            0 <= i < records@.len() ==> {
                &&& (#[trigger] r@[i]).name@ == records@[i].name@
                &&& r@[i].content@ == records@[i].content@
                &&& r@[i].content_type@ == records@[i].content_type@
                &&& r@[i].digest@ == records@[i].digest@
            },
        asset_keys(r@) == record_keys(views(records@)),
{
    let mut r: Vec<Asset<'a>> = Vec::new();
    let mut i: usize = 0;
    while i < records.len()
        invariant
            i <= records@.len(),
            r@.len() == i,
            forall|k: int|
                0 <= k < i ==> {
                    &&& (#[trigger] r@[k]).name@ == records@[k].name@
                    &&& r@[k].content@ == records@[k].content@
                    &&& r@[k].content_type@ == records@[k].content_type@
                    &&& r@[k].digest@ == records@[k].digest@
                },
        decreases records@.len() - i,
    {
        r.push(records[i].as_asset());
        i = i + 1;
    }
    proof {
        assert(asset_keys(r@) =~= record_keys(views(records@)));
    }
    r
}

/// The views of a sequence of records.
pub open spec fn views(s: Seq<AssetRecord>) -> Seq<AssetRecordView> {
    s.map_values(|r: AssetRecord| r@)
}

/// The UTF-8 bytes of a record's name: the key that orders a table.
pub open spec fn record_key(r: AssetRecordView) -> Seq<u8> {
    encode_utf8(r.name)
}

/// The keys of a sequence of records, in order.
pub open spec fn record_keys(t: Seq<AssetRecordView>) -> Seq<Seq<u8>> {
    t.map_values(|r: AssetRecordView| record_key(r))
}

/// Some record before position `k` of `s` has the name of the one at `k`.
pub open spec fn repeats_earlier(s: Seq<AssetRecordView>, k: int) -> bool {
    exists|j: int| 0 <= j < k && (#[trigger] s[j]).name == s[k].name
}

/// No two records of `s` share a name.
pub open spec fn names_distinct(s: Seq<AssetRecordView>) -> bool {
    forall|k: int| 0 <= k < s.len() ==> !repeats_earlier(s, k)
}

/// `out` holds the records of `input`, each once, in strictly increasing
/// order of their names' bytes.
pub open spec fn is_sorted_table(input: Seq<AssetRecordView>, out: Seq<AssetRecordView>) -> bool {
    &&& strictly_sorted(record_keys(out))
    &&& out.len() == input.len()
    &&& forall|i: int| 0 <= i < input.len() ==> out.contains(#[trigger] input[i])
    &&& forall|j: int| 0 <= j < out.len() ==> input.contains(#[trigger] out[j])
}

/// The error for the record at `k` of `s`, whose name an earlier one has.
pub open spec fn is_duplicate_at(e: Error, s: Seq<AssetRecordView>, k: int) -> bool {
    &&& 0 <= k < s.len()
    &&& repeats_earlier(s, k)
    &&& forall|j: int| 0 <= j < k ==> !repeats_earlier(s, j)
    &&& e matches Error::DuplicatePath(name) && name@ == s[k].name
}

/// A key that sorts after the first `p` keys and before the rest keeps the
/// keys sorted when placed at `p`.
proof fn lemma_insert_keeps_sorted(keys: Seq<Seq<u8>>, p: int, key: Seq<u8>)
    requires
        strictly_sorted(keys),
        0 <= p <= keys.len(),
        forall|x: int| 0 <= x < p ==> bytes_lt(#[trigger] keys[x], key),
        forall|x: int| p <= x < keys.len() ==> bytes_lt(key, #[trigger] keys[x]),
    ensures
        strictly_sorted(keys.insert(p, key)),
{
    let t = keys.insert(p, key);
    assert forall|x: int, y: int| 0 <= x < y < t.len() implies bytes_lt(
        #[trigger] t[x],
        #[trigger] t[y],
    ) by {
        if y < p {
            assert(t[x] == keys[x] && t[y] == keys[y]);
        } else if y == p {
            assert(t[x] == keys[x]);
        } else if x < p {
            assert(t[x] == keys[x] && t[y] == keys[y - 1]);
            lemma_lt_transitive(keys[x], key, keys[y - 1]);
        } else if x == p {
            assert(t[y] == keys[y - 1]);
        } else {
            assert(t[x] == keys[x - 1] && t[y] == keys[y - 1]);
        }
    }
}

/// Each of the first `i` items of `input` stands in `out`, and each item of
/// `out` is one of them.
#[verifier::opaque]
spec fn holds_first(out: Seq<AssetRecordView>, input: Seq<AssetRecordView>, i: int) -> bool {
    &&& forall|a: int| 0 <= a < i ==> out.contains(#[trigger] input[a])
    &&& forall|j: int| 0 <= j < out.len() ==> input.take(i).contains(#[trigger] out[j])
}

/// A table that holds each of all the records of `input`, and nothing else.
proof fn lemma_holds_all(input: Seq<AssetRecordView>, out: Seq<AssetRecordView>)
    requires
        holds_first(out, input, input.len() as int),
    ensures
        forall|i: int| 0 <= i < input.len() ==> out.contains(#[trigger] input[i]),
        forall|j: int| 0 <= j < out.len() ==> input.contains(#[trigger] out[j]),
{
    reveal(holds_first);
    assert(input.take(input.len() as int) =~= input);
}

/// Placing `input[i]` at `p` of a table that holds each of the first `i`
/// records of `input` keeps it holding each, now of the first `i + 1`.
proof fn lemma_insert_step(input: Seq<AssetRecordView>, out: Seq<AssetRecordView>, i: int, p: int)
    requires
        0 <= i < input.len(),
        0 <= p <= out.len(),
        out.len() == i,
        holds_first(out, input, i),
    ensures
        holds_first(out.insert(p, input[i]), input, i + 1),
{
    reveal(holds_first);
    let new_out = out.insert(p, input[i]);
    out.insert_ensures(p, input[i]);
    assert forall|a: int| 0 <= a < i + 1 implies new_out.contains(#[trigger] input[a]) by {
        if a == i {
            assert(new_out[p] == input[a]);
        } else {
            assert(out.contains(input[a]));
            let j = choose|j: int| 0 <= j < out.len() && #[trigger] out[j] == input[a];
            if j < p {
                assert(new_out[j] == input[a]);
            } else {
                assert(new_out[j + 1] == input[a]);
            }
        }
    }
    assert forall|j: int| 0 <= j < new_out.len() implies input.take(i + 1).contains(
        #[trigger] new_out[j],
    ) by {
        let src = if j == p { j } else if j < p { j } else { j - 1 };
        if j == p {
            assert(input.take(i + 1)[i] == new_out[j]);
        } else {
            assert(input.take(i).contains(out[src]));
            let a = choose|a: int| 0 <= a < i && #[trigger] input.take(i)[a] == out[src];
            assert(input.take(i + 1)[a] == new_out[j]);
        }
    }
}

/// A record whose key is found in a table built from the records before it
/// repeats the name of one of them.
proof fn lemma_duplicate_name(input: Seq<AssetRecordView>, out: Seq<AssetRecordView>, i: int, p: int)
    requires
        0 <= i < input.len(),
        0 <= p < out.len(),
        record_keys(out)[p] == record_key(input[i]),
        holds_first(out, input, i),
    ensures
        repeats_earlier(input, i),
{
    reveal(holds_first);
    lemma_utf8_injective(out[p].name, input[i].name);
    assert(input.take(i).contains(out[p]));
    let a = choose|a: int| 0 <= a < i && #[trigger] input.take(i)[a] == out[p];
    assert(input[a] == input.take(i)[a]);
    assert(input[a].name == input[i].name);
}

/// A record whose key sorts strictly between the keys of a table built from
/// the records before it repeats none of their names.
proof fn lemma_fresh_name(input: Seq<AssetRecordView>, out: Seq<AssetRecordView>, i: int, p: int)
    requires
        0 <= i < input.len(),
        0 <= p <= out.len(),
        forall|x: int| 0 <= x < p ==> bytes_lt(#[trigger] record_keys(out)[x], record_key(input[i])),
        forall|x: int|
            p <= x < out.len() ==> bytes_lt(record_key(input[i]), #[trigger] record_keys(out)[x]),
        holds_first(out, input, i),
    ensures
        !repeats_earlier(input, i),
{
    reveal(holds_first);
    let key = record_key(input[i]);
    assert forall|a: int| 0 <= a < i implies (#[trigger] input[a]).name != input[i].name by {
        assert(out.contains(input[a]));
        let j = choose|j: int| 0 <= j < out.len() && #[trigger] out[j] == input[a];
        assert(record_keys(out)[j] == record_key(out[j]));
        if input[a].name == input[i].name {
            lemma_lt_irreflexive(key);
            if j < p {
                assert(bytes_lt(record_keys(out)[j], key));
            } else {
                assert(bytes_lt(key, record_keys(out)[j]));
            }
        }
    }
}

/// Where `key` belongs in a sorted table: the first position whose key does
/// not sort before it, and whether the key there equals it.
fn find_slot(table: &Vec<AssetRecord>, key: &[u8]) -> (r: (usize, bool))
    requires
        strictly_sorted(record_keys(views(table@))),
    ensures
        r.0 <= table@.len(),
        forall|x: int| 0 <= x < r.0 ==> bytes_lt(#[trigger] record_keys(views(table@))[x], key@),
        r.1 ==> r.0 < table@.len() && record_keys(views(table@))[r.0 as int] == key@,
        !r.1 ==> forall|x: int|
            r.0 <= x < table@.len() ==> bytes_lt(key@, #[trigger] record_keys(views(table@))[x]),
{
    let ghost keys = record_keys(views(table@));
    let mut p: usize = 0;
    while p < table.len()
        invariant
            p <= table@.len(),
            keys == record_keys(views(table@)),
            strictly_sorted(keys),
            forall|x: int| 0 <= x < p ==> bytes_lt(#[trigger] keys[x], key@),
        decreases table@.len() - p,
    {
        let here = table[p].name.as_str().as_bytes();
        assert(here@ == keys[p as int]);
        match compare_bytes(here, key) {
            Cmp::Less => {
                p = p + 1;
            },
            Cmp::Equal => {
                return (p, true);
            },
            Cmp::Greater => {
                proof {
                    assert forall|x: int| p <= x < table@.len() implies bytes_lt(
                        key@,
                        #[trigger] keys[x],
                    ) by {
                        if x > p {
                            lemma_lt_transitive(key@, keys[p as int], keys[x]);
                        }
                    }
                }
                return (p, false);
            },
        }
    }
    (p, false)
}

/// Sorts records by the bytes of their names. Fails on the first record, in
/// the given order, whose name an earlier record has.
pub fn sort_records(records: Vec<AssetRecord>) -> (r: Result<Vec<AssetRecord>, Error>)
    ensures
        r is Ok <==> names_distinct(views(records@)),
        r matches Ok(t) ==> is_sorted_table(views(records@), views(t@)),
        r matches Err(e) ==> exists|k: int| is_duplicate_at(e, views(records@), k),
{
    let ghost input = views(records@);
    let n: usize = records.len();
    let mut rest = records;
    let mut out: Vec<AssetRecord> = Vec::new();
    let mut i: usize = 0;
    proof {
        reveal(holds_first);
    }
    while rest.len() > 0
        invariant
            input == views(records@),
            input.len() == n,
            i <= n,
            views(rest@) == input.skip(i as int),
            out@.len() == i,
            strictly_sorted(record_keys(views(out@))),
            views(out@).len() == i,
            holds_first(views(out@), input, i as int),
            forall|k: int| 0 <= k < i ==> !repeats_earlier(input, k),
        decreases n - i,
    {
        proof {
            assert(views(rest@).len() == rest@.len());
            assert(views(rest@)[0] == input[i as int]);
            assert(i < n);
        }
        let ghost old_rest = rest@;
        let rec = rest.remove(0);
        let ghost old_out = views(out@);
        let ghost keys = record_keys(old_out);
        let ghost v = rec@;
        let (p, equal) = find_slot(&out, rec.name.as_str().as_bytes());
        if equal {
            proof {
                lemma_duplicate_name(input, old_out, i as int, p as int);
                assert(is_duplicate_at(Error::DuplicatePath(rec.name), input, i as int));
            }
            return Err(Error::DuplicatePath(rec.name));
        }
        proof {
            lemma_fresh_name(input, old_out, i as int, p as int);
            lemma_insert_keeps_sorted(keys, p as int, record_key(v));
        }
        out.insert(p, rec);
        proof {
            let new_out = views(out@);
            assert(new_out =~= old_out.insert(p as int, v));
            assert(record_keys(new_out) =~= keys.insert(p as int, record_key(v)));
            old_rest.remove_ensures(0);
            assert(views(rest@) =~= input.skip(i + 1)) by {
                assert forall|k: int| 0 <= k < views(rest@).len() implies views(rest@)[k] == input.skip(
                    i + 1,
                )[k] by {
                    assert(views(rest@)[k] == rest@[k]@);
                    assert(rest@[k] == old_rest[k + 1]);
                    assert(views(old_rest)[k + 1] == input.skip(i as int)[k + 1]);
                }
            }
            lemma_insert_step(input, old_out, i as int, p as int);
        }
        i = i + 1;
    }
    proof {
        assert(views(rest@).len() == rest@.len());
        assert(i == n);
        lemma_holds_all(input, views(out@));
    }
    Ok(out)
}

/// The records that the files compile to, in the order of the files.
pub open spec fn records_of(root: Seq<char>, files: Seq<SourceFile>) -> Seq<AssetRecordView> {
    files.map_values(|f: SourceFile| record_of(root, f.path@, f.content@))
}

/// Every file lies under `root`.
pub open spec fn all_under(root: Seq<char>, files: Seq<SourceFile>) -> bool {
    forall|i: int| 0 <= i < files.len() ==> (#[trigger] relative_to(root, files[i].path@)) is Some
}

/// The error for the file at `k`, the first that does not lie under `root`.
pub open spec fn is_first_outside(e: Error, root: Seq<char>, files: Seq<SourceFile>, k: int) -> bool {
    &&& 0 <= k < files.len()
    &&& forall|j: int| 0 <= j < k ==> (#[trigger] relative_to(root, files[j].path@)) is Some
    &&& relative_to(root, files[k].path@) is None
    &&& is_not_in_root(e, root, files[k].path@)
}

/// Compiles the files found under `root` into a table sorted by name.
///
/// Fails on the first file, in the given order, that does not lie under the
/// root; where all do, on the first whose name an earlier file has.
pub fn compile(root: &str, files: &[SourceFile]) -> (r: Result<Vec<AssetRecord>, Error>)
    ensures
        r is Ok <==> all_under(root@, files@) && names_distinct(records_of(root@, files@)),
        r matches Ok(t) ==> is_sorted_table(records_of(root@, files@), views(t@)),
        r matches Err(e) ==> if all_under(root@, files@) {
            exists|k: int| is_duplicate_at(e, records_of(root@, files@), k)
        } else {
            exists|k: int| is_first_outside(e, root@, files@, k)
        },
{
    let mut records: Vec<AssetRecord> = Vec::new();
    let mut i: usize = 0;
    while i < files.len()
        invariant
            i <= files@.len(),
            forall|j: int| 0 <= j < i ==> (#[trigger] relative_to(root@, files@[j].path@)) is Some,
            views(records@) =~= records_of(root@, files@).take(i as int),
        decreases files@.len() - i,
    {
        let rec = match make_record(root, &files[i]) {
            Ok(rec) => rec,
            Err(e) => {
                proof {
                    assert(is_first_outside(e, root@, files@, i as int));
                }
                return Err(e);
            },
        };
        let ghost before = records@;
        let ghost v = rec@;
        records.push(rec);
        proof {
            let all = records_of(root@, files@);
            assert(all[i as int] == v);
            assert(views(records@) =~= views(before).push(v));
            assert(all.take(i + 1) =~= all.take(i as int).push(v));
        }
        i = i + 1;
    }
    proof {
        assert(records_of(root@, files@).take(i as int) =~= records_of(root@, files@));
    }
    sort_records(records)
}

/// Two sorted tables of the same records agree on their first `k` places.
proof fn lemma_sorted_prefix_equal(
    input: Seq<AssetRecordView>,
    t1: Seq<AssetRecordView>,
    t2: Seq<AssetRecordView>,
    k: int,
)
    requires
        is_sorted_table(input, t1),
        is_sorted_table(input, t2),
        0 <= k <= t1.len(),
    ensures
        forall|x: int| 0 <= x < k ==> t1[x] == t2[x],
    decreases k,
{
    if k > 0 {
        let m = k - 1;
        lemma_sorted_prefix_equal(input, t1, t2, m);
        let a = t1[m];
        let b = t2[m];
        assert(input.contains(t1[m]));
        let ia = choose|ia: int| 0 <= ia < input.len() && #[trigger] input[ia] == a;
        assert(t2.contains(input[ia]));
        let j = choose|j: int| 0 <= j < t2.len() && #[trigger] t2[j] == a;
        assert(input.contains(t2[m]));
        let ib = choose|ib: int| 0 <= ib < input.len() && #[trigger] input[ib] == b;
        assert(t1.contains(input[ib]));
        let jb = choose|jb: int| 0 <= jb < t1.len() && #[trigger] t1[jb] == b;
        assert(record_keys(t1)[m] == record_key(a));
        assert(record_keys(t2)[m] == record_key(b));
        assert(record_keys(t2)[j] == record_key(a));
        assert(record_keys(t1)[jb] == record_key(b));
        if j < m {
            assert(t1[j] == t2[j]);
            assert(record_keys(t1)[j] == record_key(a));
            lemma_lt_irreflexive(record_key(a));
        } else if jb < m {
            assert(t2[jb] == t1[jb]);
            assert(record_keys(t2)[jb] == record_key(b));
            lemma_lt_irreflexive(record_key(b));
        } else if j > m && jb > m {
            lemma_lt_asymmetric(record_key(a), record_key(b));
        }
    }
}

/// Compiling the same files under the same root twice gives the same table.
pub proof fn lemma_compile_deterministic(
    root: Seq<char>,
    files: Seq<SourceFile>,
    t1: Seq<AssetRecordView>,
    t2: Seq<AssetRecordView>,
)
    requires
        is_sorted_table(records_of(root, files), t1),
        is_sorted_table(records_of(root, files), t2),
    ensures
        t1 == t2,
{
    lemma_sorted_prefix_equal(records_of(root, files), t1, t2, t1.len() as int);
    assert(t1 =~= t2);
}

/// Where the digest gives different results on the different contents of
/// the files, and no two files have the same content, no two records of the
/// compiled table have the same digest.
pub proof fn lemma_digests_unique(root: Seq<char>, files: Seq<SourceFile>, t: Seq<AssetRecordView>)
    requires
        is_sorted_table(records_of(root, files), t),
        forall|i: int, j: int|
            0 <= i < files.len() && 0 <= j < files.len() && i != j ==> (#[trigger] files[i]).content@
                != (#[trigger] files[j]).content@,
        forall|i: int, j: int|
            0 <= i < files.len() && 0 <= j < files.len() && files[i].content@ != files[j].content@
                ==> blake2s256_of((#[trigger] files[i]).content@) != blake2s256_of(
                (#[trigger] files[j]).content@,
            ),
    ensures
        forall|a: int, b: int| 0 <= a < b < t.len() ==> (#[trigger] t[a]).digest != (#[trigger] t[b]).digest,
{
    let input = records_of(root, files);
    assert forall|a: int, b: int| 0 <= a < b < t.len() implies (#[trigger] t[a]).digest != (
    #[trigger] t[b]).digest by {
        assert(input.contains(t[a]));
        let ia = choose|ia: int| 0 <= ia < input.len() && #[trigger] input[ia] == t[a];
        assert(input.contains(t[b]));
        let ib = choose|ib: int| 0 <= ib < input.len() && #[trigger] input[ib] == t[b];
        assert(bytes_lt(record_keys(t)[a], record_keys(t)[b]));
        if ia == ib {
            lemma_lt_irreflexive(record_key(t[a]));
        }
        assert(input[ia].digest == blake2s256_of(files[ia].content@));
        assert(input[ib].digest == blake2s256_of(files[ib].content@));
    }
}

} // verus!
