//! The compatibility gate: a signed manifest lists the supported Codex
//! `version+sha256` keys, and a key is patched only when the manifest's
//! signature over its canonical payload verifies and the key is listed.
use vstd::prelude::*;
use vstd::relations::{sorted_by, total_ordering};
use vstd::utf8::{encode_utf8, encode_utf8_decode_utf8};

use crate::codec::{json_quoted, json_string_literal};
use crate::manifest_signing::{
    signature_accepted_with_key_hex, verify_manifest_signature_with_public_key,
};
use crate::text::{join, owned, str_eq, views};

verus! {

/// A compatibility manifest: its schema version, the supported keys, and
/// the hex signature over its canonical payload.
#[derive(Debug, Clone, PartialEq, Eq)]
pub struct CompatibilityManifest {
    pub schema_version: u32,
    pub supported_keys: Vec<String>,
    pub signature_hex: String,
}

/// What the support check decides for a key.
#[derive(Debug, Clone, PartialEq, Eq)]
pub enum InstallMode {
    PatchAndRunManaged,
    RunStock { reason: String },
}

// ---------------------------------------------------------------------------
// The order of keys: `String`'s order, byte-wise on the UTF-8 encoding
// ---------------------------------------------------------------------------

/// Lexicographic order of byte strings.
pub open spec fn bytes_le(a: Seq<u8>, b: Seq<u8>) -> bool
    decreases a.len(),
{
    if a.len() == 0 {
        true
    } else if b.len() == 0 {
        false
    } else if a[0] != b[0] {
        a[0] < b[0]
    } else {
        bytes_le(a.drop_first(), b.drop_first())
    }
}

/// The order of `String`s: lexicographic on their UTF-8 bytes.
pub open spec fn key_le(a: Seq<char>, b: Seq<char>) -> bool {
    bytes_le(encode_utf8(a), encode_utf8(b))
}

/// `key_le` as a relation.
pub open spec fn key_order() -> spec_fn(Seq<char>, Seq<char>) -> bool {
    |a: Seq<char>, b: Seq<char>| key_le(a, b)
}

/// The keys in `String` order.
pub open spec fn sorted_keys(keys: Seq<Seq<char>>) -> Seq<Seq<char>> {
    keys.sort_by(key_order())
}

proof fn lemma_bytes_le_reflexive(a: Seq<u8>)
    ensures
        bytes_le(a, a),
    decreases a.len(),
{
    if a.len() > 0 {
        lemma_bytes_le_reflexive(a.drop_first());
    }
}

proof fn lemma_bytes_le_antisymmetric(a: Seq<u8>, b: Seq<u8>)
    requires
        bytes_le(a, b),
        bytes_le(b, a),
    ensures
        a == b,
    decreases a.len(),
{
    if a.len() > 0 {
        lemma_bytes_le_antisymmetric(a.drop_first(), b.drop_first());
        assert(a =~= seq![a[0]] + a.drop_first());
        assert(b =~= seq![b[0]] + b.drop_first());
    } else {
        assert(b.len() == 0);
        assert(a =~= b);
    }
}

proof fn lemma_bytes_le_transitive(a: Seq<u8>, b: Seq<u8>, c: Seq<u8>)
    requires
        bytes_le(a, b),
        bytes_le(b, c),
    ensures
        bytes_le(a, c),
    decreases a.len(),
{
    if a.len() > 0 && b.len() > 0 && c.len() > 0 && a[0] == b[0] && b[0] == c[0] {
        lemma_bytes_le_transitive(a.drop_first(), b.drop_first(), c.drop_first());
    }
}

proof fn lemma_bytes_le_total(a: Seq<u8>, b: Seq<u8>)
    ensures
        bytes_le(a, b) || bytes_le(b, a),
    decreases a.len(),
{
    if a.len() > 0 && b.len() > 0 && a[0] == b[0] {
        lemma_bytes_le_total(a.drop_first(), b.drop_first());
    }
}

/// `String`'s order is a total order.
pub proof fn lemma_key_order_total()
    ensures
        total_ordering(key_order()),
{
    let r = key_order();
    assert forall|x: Seq<char>| #[trigger] r(x, x) by {
        lemma_bytes_le_reflexive(encode_utf8(x));
    }
    assert forall|x: Seq<char>, y: Seq<char>| #[trigger] r(x, y) && #[trigger] r(y, x) implies x
        == y by {
        lemma_bytes_le_antisymmetric(encode_utf8(x), encode_utf8(y));
        encode_utf8_decode_utf8(x);
        encode_utf8_decode_utf8(y);
    }
    assert forall|x: Seq<char>, y: Seq<char>, z: Seq<char>| #[trigger]
        r(x, y) && #[trigger] r(y, z) implies r(x, z) by {
        lemma_bytes_le_transitive(encode_utf8(x), encode_utf8(y), encode_utf8(z));
    }
    assert forall|x: Seq<char>, y: Seq<char>| #[trigger] r(x, y) || #[trigger] r(y, x) by {
        lemma_bytes_le_total(encode_utf8(x), encode_utf8(y));
    }
}

/// Two sequences sorted by the same total order and holding the same
/// elements are equal.
pub proof fn lemma_sorted_unique<A>(a: Seq<A>, b: Seq<A>, leq: spec_fn(A, A) -> bool)
    requires
        total_ordering(leq),
        sorted_by(a, leq),
        sorted_by(b, leq),
        a.to_multiset() == b.to_multiset(),
    ensures
        a == b,
    decreases a.len(),
{
    a.to_multiset_ensures();
    b.to_multiset_ensures();
    if a.len() == 0 {
        assert(b.len() == 0);
        assert(a =~= b);
    } else {
        assert(b.len() == a.len());
        assert(a.contains(a[0]));
        assert(b.to_multiset().count(a[0]) > 0);
        assert(b.contains(a[0]));
        let j = choose|j: int| 0 <= j < b.len() && b[j] == a[0];
        assert(leq(b[0], a[0])) by {
            if j > 0 {
                assert(leq(b[0], b[j]));
            }
        }
        assert(b.contains(b[0]));
        assert(a.to_multiset().count(b[0]) > 0);
        assert(a.contains(b[0]));
        let k = choose|k: int| 0 <= k < a.len() && a[k] == b[0];
        assert(leq(a[0], b[0])) by {
            if k > 0 {
                assert(leq(a[0], a[k]));
            }
        }
        assert(a[0] == b[0]);
        let ra = a.remove(0);
        let rb = b.remove(0);
        assert(ra =~= a.drop_first());
        assert(rb =~= b.drop_first());
        assert(ra.to_multiset() == rb.to_multiset());
        assert(sorted_by(ra, leq)) by {
            assert forall|i: int, k2: int| 0 <= i < k2 < ra.len() implies leq(ra[i], ra[k2]) by {
                assert(ra[i] == a[i + 1]);
                assert(ra[k2] == a[k2 + 1]);
            }
        }
        assert(sorted_by(rb, leq)) by {
            assert forall|i: int, k2: int| 0 <= i < k2 < rb.len() implies leq(rb[i], rb[k2]) by {
                assert(rb[i] == b[i + 1]);
                assert(rb[k2] == b[k2 + 1]);
            }
        }
        lemma_sorted_unique(ra, rb, leq);
        assert(a =~= b) by {
            assert forall|i: int| 0 <= i < a.len() implies a[i] == b[i] by {
                if i > 0 {
                    assert(a[i] == ra[i - 1]);
                    assert(b[i] == rb[i - 1]);
                }
            }
        }
    }
}

/// Sorting depends only on which keys there are, not on their order.
pub proof fn lemma_sorted_keys_order_independent(a: Seq<Seq<char>>, b: Seq<Seq<char>>)
    requires
        a.to_multiset() == b.to_multiset(),
    ensures
        sorted_keys(a) == sorted_keys(b),
{
    lemma_key_order_total();
    a.lemma_sort_by_ensures(key_order());
    b.lemma_sort_by_ensures(key_order());
    lemma_sorted_unique(sorted_keys(a), sorted_keys(b), key_order());
}

/// Compares two strings in `String` order.
pub fn key_le_exec(a: &str, b: &str) -> (r: bool)
    ensures
        r == key_le(a@, b@),
{
    let x = a.as_bytes();
    let y = b.as_bytes();
    let mut i: usize = 0;
    proof {
        assert(x@.subrange(0, x@.len() as int) =~= x@);
        assert(y@.subrange(0, y@.len() as int) =~= y@);
    }
    while i < x.len() && i < y.len() && x[i] == y[i]
        invariant
            i <= x@.len(),
            i <= y@.len(),
            x@ == encode_utf8(a@),
            y@ == encode_utf8(b@),
            bytes_le(x@, y@) == bytes_le(x@.subrange(i as int, x@.len() as int), y@.subrange(
                i as int,
                y@.len() as int,
            )),
        decreases x.len() - i,
    {
        proof {
            let xs = x@.subrange(i as int, x@.len() as int);
            let ys = y@.subrange(i as int, y@.len() as int);
            assert(xs.drop_first() =~= x@.subrange(i + 1, x@.len() as int));
            assert(ys.drop_first() =~= y@.subrange(i + 1, y@.len() as int));
        }
        i = i + 1;
    }
    proof {
        assert(x@.subrange(0, x@.len() as int) =~= x@);
        assert(y@.subrange(0, y@.len() as int) =~= y@);
    }
    if i == x.len() {
        true
    } else if i == y.len() {
        false
    } else {
        x[i] < y[i]
    }
}

/// The keys sorted in `String` order (a stable insertion sort).
pub fn sort_keys(keys: &Vec<String>) -> (r: Vec<String>)
    ensures
        views(r@) == sorted_keys(views(keys@)),
{
    proof {
        lemma_key_order_total();
    }
    let ghost leq = key_order();
    let mut out: Vec<String> = Vec::new();
    let mut i: usize = 0;
    proof {
        assert(views(out@) =~= Seq::<Seq<char>>::empty());
        assert(views(keys@.subrange(0, 0)) =~= Seq::<Seq<char>>::empty());
    }
    while i < keys.len()
        invariant
            i <= keys.len(),
            leq == key_order(),
            total_ordering(leq),
            sorted_by(views(out@), leq),
            views(out@).to_multiset() == views(keys@.subrange(0, i as int)).to_multiset(),
        decreases keys.len() - i,
    {
        let k = &keys[i];
        let mut pos: usize = 0;
        while pos < out.len() && key_le_exec(out[pos].as_str(), k.as_str())
            invariant
                pos <= out.len(),
                forall|j: int| 0 <= j < pos ==> key_le(#[trigger] views(out@)[j], k@),
            decreases out.len() - pos,
        {
            pos = pos + 1;
        }
        let ghost before = views(out@);
        out.insert(pos, k.clone());
        proof {
            let after = views(out@);
            assert(after =~= before.insert(pos as int, k@));
            before.insert_ensures(pos as int, k@);
            if pos < before.len() {
                assert(!key_le(before[pos as int], k@));
                assert(leq(before[pos as int], k@) == key_le(before[pos as int], k@));
                assert(leq(before[pos as int], k@) || leq(k@, before[pos as int]));
                assert(leq(k@, before[pos as int]));
            }
            assert forall|a: int, b: int| 0 <= a < b < after.len() implies leq(
                #[trigger] after[a],
                #[trigger] after[b],
            ) by {
                if b < pos {
                    assert(after[a] == before[a] && after[b] == before[b]);
                } else if b == pos {
                    assert(after[a] == before[a]);
                } else if a > pos {
                    assert(after[a] == before[a - 1] && after[b] == before[b - 1]);
                } else if a == pos {
                    assert(after[b] == before[b - 1]);
                    if b - 1 > pos {
                        assert(leq(before[pos as int], before[b - 1]));
                    }
                } else {
                    assert(after[a] == before[a] && after[b] == before[b - 1]);
                    assert(leq(before[a], k@));
                    assert(leq(k@, before[pos as int]));
                    if b - 1 > pos {
                        assert(leq(before[pos as int], before[b - 1]));
                    }
                }
            }
            after.to_multiset_ensures();
            before.to_multiset_ensures();
            assert(after.remove(pos as int) =~= before);
            assert(after.to_multiset().remove(k@) =~= before.to_multiset());
            assert(after.to_multiset().count(k@) > 0) by {
                assert(after[pos as int] == k@);
                assert(after.contains(k@));
            }
            assert(after.to_multiset() =~= before.to_multiset().insert(k@));
            let pre = views(keys@.subrange(0, i as int));
            assert(views(keys@.subrange(0, i + 1)) =~= pre.push(k@));
            pre.to_multiset_ensures();
        }
        i = i + 1;
    }
    proof {
        assert(keys@.subrange(0, keys@.len() as int) =~= keys@);
        views(keys@).lemma_sort_by_ensures(leq);
        lemma_sorted_unique(views(out@), sorted_keys(views(keys@)), leq);
    }
    out
}

// ---------------------------------------------------------------------------
// The canonical payload and the support check
// ---------------------------------------------------------------------------

/// The canonical payload of a manifest with schema version 1: the compact
/// JSON object `{"schema_version":1,"supported_keys":[...]}` with the keys
/// sorted in `String` order.
pub open spec fn canonical_payload(keys: Seq<Seq<char>>) -> Seq<char> {
    "{\"schema_version\":1,\"supported_keys\":["@ + join(
        sorted_keys(keys).map_values(|k: Seq<char>| json_quoted(k)),
        ","@,
    ) + "]}"@
}

/// The canonical payload does not depend on the order of the keys.
pub proof fn lemma_canonical_payload_order_independent(a: Seq<Seq<char>>, b: Seq<Seq<char>>)
    requires
        a.to_multiset() == b.to_multiset(),
    ensures
        canonical_payload(a) == canonical_payload(b),
{
    lemma_sorted_keys_order_independent(a, b);
}

/// The payload that the manifest's signature covers; a schema version other
/// than 1 is refused.
pub fn canonical_manifest_payload(manifest: &CompatibilityManifest) -> (r: Result<String, String>)
    ensures
        manifest.schema_version != 1 ==> (r matches Err(e) && e@
            == "unsupported manifest schema version"@),
        manifest.schema_version == 1 ==> (r matches Ok(p) && p@ == canonical_payload(
            views(manifest.supported_keys@),
        )),
{
    if manifest.schema_version != 1 {
        return Err(owned("unsupported manifest schema version"));
    }
    let keys = sort_keys(&manifest.supported_keys);
    let ghost quoted = sorted_keys(views(manifest.supported_keys@)).map_values(
        |k: Seq<char>| json_quoted(k),
    );
    let mut out = owned("{\"schema_version\":1,\"supported_keys\":[");
    let mut i: usize = 0;
    while i < keys.len()
        invariant
            i <= keys.len(),
            manifest.schema_version == 1,
            views(keys@) == sorted_keys(views(manifest.supported_keys@)),
            quoted == sorted_keys(views(manifest.supported_keys@)).map_values(
                |k: Seq<char>| json_quoted(k),
            ),
            out@ == "{\"schema_version\":1,\"supported_keys\":["@ + join(
                quoted.subrange(0, i as int),
                ","@,
            ),
        decreases keys.len() - i,
    {
        let lit = json_string_literal(keys[i].as_str()).unwrap();
        proof {
            assert(lit@ == quoted[i as int]);
            assert(quoted.subrange(0, i + 1).drop_last() =~= quoted.subrange(0, i as int));
        }
        if i > 0 {
            out.append(",");
        } else {
            proof {
                assert(quoted.subrange(0, 0) =~= Seq::<Seq<char>>::empty());
            }
        }
        out.append(lit.as_str());
        i = i + 1;
    }
    out.append("]}");
    proof {
        assert(quoted.subrange(0, keys@.len() as int) =~= quoted);
    }
    Ok(out)
}

/// Checks the manifest signature over `payload` against the hex public
/// key: `Err("invalid signature")` exactly when it does not verify.
pub fn verify_manifest_signature(payload: &str, signature_hex: &str, public_key_hex: &str) -> (r:
    Result<(), String>)
    ensures
        r is Ok <==> signature_accepted_with_key_hex(payload@, signature_hex@, public_key_hex@),
        r matches Err(e) ==> e@ == "invalid signature"@,
{
    if verify_manifest_signature_with_public_key(payload, signature_hex, public_key_hex) {
        Ok(())
    } else {
        Err(owned("invalid signature"))
    }
}

/// The mode for a key once the manifest is trusted: patch when the key is
/// listed, else run stock Codex for "unsupported compatibility key".
pub open spec fn mode_for_key(mode: InstallMode, keys: Seq<Seq<char>>, key: Seq<char>) -> bool {
    match mode {
        InstallMode::PatchAndRunManaged => keys.contains(key),
        InstallMode::RunStock { reason } => !keys.contains(key) && reason@
            == "unsupported compatibility key"@,
    }
}

/// Whether `key` is one of the keys.
pub fn key_listed(keys: &[String], key: &str) -> (r: bool)
    ensures
        r == views(keys@).contains(key@),
{
    let mut i: usize = 0;
    while i < keys.len()
        invariant
            i <= keys.len(),
            forall|j: int| 0 <= j < i ==> views(keys@)[j] != key@,
        decreases keys.len() - i,
    {
        if str_eq(keys[i].as_str(), key) {
            assert(views(keys@)[i as int] == key@);
            return true;
        }
        i = i + 1;
    }
    false
}

/// The support check's decision for `key` under the manifest: the schema version
/// must be 1, the signature over the canonical payload must verify with the
/// hex public key, and then the key is patched when listed and runs stock
/// Codex otherwise.
pub fn resolve_install_mode(
    manifest: &CompatibilityManifest,
    key: &str,
    public_key_hex: &str,
) -> (r: Result<InstallMode, String>)
    ensures
        manifest.schema_version != 1 ==> (r matches Err(e) && e@
            == "unsupported manifest schema version"@),
        manifest.schema_version == 1 && signature_accepted_with_key_hex(
            canonical_payload(views(manifest.supported_keys@)),
            manifest.signature_hex@,
            public_key_hex@,
        ) ==> (r matches Ok(mode) && mode_for_key(mode, views(manifest.supported_keys@), key@)),
        manifest.schema_version == 1 && !signature_accepted_with_key_hex(
            canonical_payload(views(manifest.supported_keys@)),
            manifest.signature_hex@,
            public_key_hex@,
        ) ==> (r matches Err(e) && e@ == "invalid signature"@),
{
    let payload = canonical_manifest_payload(manifest)?;
    verify_manifest_signature(payload.as_str(), manifest.signature_hex.as_str(), public_key_hex)?;
    if key_listed(manifest.supported_keys.as_slice(), key) {
        Ok(InstallMode::PatchAndRunManaged)
    } else {
        Ok(InstallMode::RunStock { reason: owned("unsupported compatibility key") })
    }
}

} // verus!
