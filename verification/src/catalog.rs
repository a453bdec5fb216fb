//! The feature catalog loader: turns the records read from a catalog
//! directory into the list of sign definitions, enforcing the intra-catalog
//! invariants: a record's id must match the id derived from its file's base
//! name, every allograph code must match its scheme's fixed pattern, and no
//! allograph code may appear twice anywhere in the catalog.

use vstd::prelude::*;

use crate::error::LoadError;
use crate::records::FeatureFile;
use crate::text::base_name;
use crate::text::base_name_of;
use crate::text::check_code;
use crate::text::is_code;

verus! {

/// One file of a catalog directory: the file's name and the sign definition
/// decoded from its contents.
pub type CatalogEntry = (String, FeatureFile);

/// The scheme letter of Parpola allograph codes.
pub const PARPOLA_SCHEME: char = 'V';

/// The scheme letter of Wells allograph codes.
pub const WELLS_SCHEME: char = 'W';

/// A catalog entry contributes a sign definition unless its file is the
/// template "default_features", which is skipped.
pub open spec fn kept(e: CatalogEntry) -> bool {
    base_name_of(e.0@) != "default_features"@
}

/// The allograph codes a sign definition lists under one scheme.
pub open spec fn scheme_codes(f: FeatureFile, scheme: char) -> Seq<String> {
    if scheme == PARPOLA_SCHEME {
        f.parpola_graphemes@
    } else {
        f.wells_graphemes@
    }
}

/// Every allograph code a sign definition lists matches its scheme's fixed
/// pattern.
pub open spec fn sign_codes_ok(f: FeatureFile) -> bool {
    &&& forall|k: int|
        0 <= k < f.parpola_graphemes@.len() ==> is_code(
            #[trigger] f.parpola_graphemes@[k]@,
            PARPOLA_SCHEME,
        )
    &&& forall|k: int|
        0 <= k < f.wells_graphemes@.len() ==> is_code(
            #[trigger] f.wells_graphemes@[k]@,
            WELLS_SCHEME,
        )
}

/// A kept entry is self-consistent: its record's id equals the id derived
/// from its file's base name, and its codes are well formed.
pub open spec fn entry_ok(e: CatalogEntry) -> bool {
    &&& e.1.id@ == base_name_of(e.0@)
    &&& sign_codes_ok(e.1)
}

/// The sign definitions a directory's entries contribute, in entry order,
/// with the template file skipped.
pub open spec fn catalog_signs(entries: Seq<CatalogEntry>) -> Seq<FeatureFile>
    decreases entries.len(),
{
    if entries.len() == 0 {
        Seq::empty()
    } else {
        let rest = catalog_signs(entries.drop_last());
        if kept(entries.last()) {
            rest.push(entries.last().1)
        } else {
            rest
        }
    }
}

/// A list of code strings holds the given code.
pub open spec fn mentions(cs: Seq<String>, c: Seq<char>) -> bool {
    exists|m: int| 0 <= m < cs.len() && #[trigger] cs[m]@ == c
}

/// `(p, k)` addresses an allograph code of the catalog: position `k` in
/// the scheme's code list of the sign at position `p`.
pub open spec fn code_slot(signs: Seq<FeatureFile>, scheme: char, p: int, k: int) -> bool {
    0 <= p < signs.len() && 0 <= k < scheme_codes(signs[p], scheme).len()
}

/// The code held at one allograph slot of the catalog.
pub open spec fn slot_code(signs: Seq<FeatureFile>, scheme: char, p: int, k: int) -> Seq<char> {
    scheme_codes(signs[p], scheme)[k]@
}

/// Global uniqueness of one scheme's allograph codes: no two distinct
/// slots of the catalog carry the same code.
pub open spec fn codes_unique(signs: Seq<FeatureFile>, scheme: char) -> bool {
    forall|p: int, k: int, q: int, l: int|
        code_slot(signs, scheme, p, k) && code_slot(signs, scheme, q, l) && (p != q || k != l)
            ==> #[trigger] slot_code(signs, scheme, p, k) != #[trigger] slot_code(
            signs,
            scheme,
            q,
            l,
        )
}

/// Some slot of the catalog carries the given code under the given scheme.
pub open spec fn has_code(signs: Seq<FeatureFile>, scheme: char, c: Seq<char>) -> bool {
    exists|p: int, k: int|
        code_slot(signs, scheme, p, k) && #[trigger] slot_code(signs, scheme, p, k) == c
}

/// Two distinct slots of the catalog carry the given code under the given
/// scheme.
pub open spec fn code_duplicated(signs: Seq<FeatureFile>, scheme: char, c: Seq<char>) -> bool {
    exists|p: int, k: int, q: int, l: int|
        code_slot(signs, scheme, p, k) && code_slot(signs, scheme, q, l) && (p != q || k != l)
            && #[trigger] slot_code(signs, scheme, p, k) == c && #[trigger] slot_code(
            signs,
            scheme,
            q,
            l,
        ) == c
}

/// A directory's entries form a valid catalog: every kept entry is
/// self-consistent, and each scheme's allograph codes are globally unique
/// across the catalog.
pub open spec fn catalog_valid(entries: Seq<CatalogEntry>) -> bool {
    &&& forall|i: int| 0 <= i < entries.len() && kept(#[trigger] entries[i]) ==> entry_ok(entries[i])
    &&& codes_unique(catalog_signs(entries), PARPOLA_SCHEME)
    &&& codes_unique(catalog_signs(entries), WELLS_SCHEME)
}

/// An entry lists the given code in a scheme list whose pattern the code
/// fails to match.
pub open spec fn entry_lists_bad_code(e: CatalogEntry, code: Seq<char>) -> bool {
    ||| (mentions(e.1.parpola_graphemes@, code) && !is_code(code, PARPOLA_SCHEME))
    ||| (mentions(e.1.wells_graphemes@, code) && !is_code(code, WELLS_SCHEME))
}

/// Some kept entry with the given id lists the given code in a scheme
/// list the code fails to match.
pub open spec fn malformed_witness(
    entries: Seq<CatalogEntry>,
    code: Seq<char>,
    sign_id: Seq<char>,
) -> bool {
    exists|i: int|
        0 <= i < entries.len() && kept(#[trigger] entries[i]) && entries[i].1.id@ == sign_id
            && entry_lists_bad_code(entries[i], code)
}

/// What each error of the catalog loader attests about the directory's
/// entries.
pub open spec fn catalog_error_witnessed(entries: Seq<CatalogEntry>, e: LoadError) -> bool {
    match e {
        LoadError::IdentifierMismatch { file_id, record_id } => exists|i: int|
            0 <= i < entries.len() && kept(#[trigger] entries[i]) && file_id@ == base_name_of(
                entries[i].0@,
            ) && record_id@ == entries[i].1.id@ && file_id@ != record_id@,
        LoadError::MalformedCode { code, sign_id } => malformed_witness(entries, code@, sign_id@),
        LoadError::DuplicateCode { code } => code_duplicated(
            catalog_signs(entries),
            PARPOLA_SCHEME,
            code@,
        ) || code_duplicated(catalog_signs(entries), WELLS_SCHEME, code@),
        _ => false,
    }
}

/// Whether two strings hold the same characters.
pub fn string_eq(a: &String, b: &String) -> (r: bool)
    ensures
        r == (a@ == b@),
{
    a.eq(b)
}

/// Whether the running list of seen codes already holds the given code.
fn contains_code(seen: &Vec<String>, code: &String) -> (r: bool)
    ensures
        r == mentions(seen@, code@),
{
    let n = seen.len();
    let mut i: usize = 0;
    while i < n
        invariant
            0 <= i <= n,
            n == seen@.len(),
            forall|m: int| 0 <= m < i ==> #[trigger] seen@[m]@ != code@,
        decreases n - i,
    {
        if string_eq(&seen[i], code) {
            return true;
        }
        i += 1;
    }
    false
}

proof fn lemma_mentions_concat(a: Seq<String>, b: Seq<String>, c: Seq<char>)
    ensures
        mentions(a + b, c) <==> mentions(a, c) || mentions(b, c),
{
    if mentions(a + b, c) {
        let m = choose|m: int| 0 <= m < (a + b).len() && #[trigger] (a + b)[m]@ == c;
        if m < a.len() {
            assert(a[m]@ == c);
        } else {
            assert(b[m - a.len()]@ == c);
        }
    }
    if mentions(a, c) {
        let m = choose|m: int| 0 <= m < a.len() && #[trigger] a[m]@ == c;
        assert((a + b)[m]@ == c);
    }
    if mentions(b, c) {
        let m = choose|m: int| 0 <= m < b.len() && #[trigger] b[m]@ == c;
        assert((a + b)[a.len() + m]@ == c);
    }
}

/// Appending a sign to the catalog adds exactly its own codes to the codes
/// the catalog carries.
proof fn lemma_has_code_push(signs: Seq<FeatureFile>, f: FeatureFile, scheme: char, c: Seq<char>)
    ensures
        has_code(signs.push(f), scheme, c) <==> has_code(signs, scheme, c) || mentions(
            scheme_codes(f, scheme),
            c,
        ),
{
    let s2 = signs.push(f);
    let n = signs.len() as int;
    if has_code(s2, scheme, c) {
        let (p, k) = choose|p: int, k: int|
            code_slot(s2, scheme, p, k) && #[trigger] slot_code(s2, scheme, p, k) == c;
        if p < n {
            assert(s2[p] == signs[p]);
            assert(slot_code(signs, scheme, p, k) == c);
        } else {
            assert(s2[p] == f);
            assert(scheme_codes(f, scheme)[k]@ == c);
        }
    }
    if has_code(signs, scheme, c) {
        let (p, k) = choose|p: int, k: int|
            code_slot(signs, scheme, p, k) && #[trigger] slot_code(signs, scheme, p, k) == c;
        assert(s2[p] == signs[p]);
        assert(slot_code(s2, scheme, p, k) == c);
    }
    if mentions(scheme_codes(f, scheme), c) {
        let k = choose|k: int|
            0 <= k < scheme_codes(f, scheme).len() && #[trigger] scheme_codes(f, scheme)[k]@ == c;
        assert(s2[n] == f);
        assert(slot_code(s2, scheme, n, k) == c);
    }
}

/// Appending a sign whose codes are pairwise distinct and nowhere in the
/// catalog keeps the scheme's codes globally unique.
proof fn lemma_unique_push(signs: Seq<FeatureFile>, f: FeatureFile, scheme: char)
    requires
        codes_unique(signs, scheme),
        forall|k: int, l: int|
            0 <= k < l < scheme_codes(f, scheme).len() ==> #[trigger] scheme_codes(f, scheme)[k]@
                != #[trigger] scheme_codes(f, scheme)[l]@,
        forall|k: int|
            0 <= k < scheme_codes(f, scheme).len() ==> !has_code(
                signs,
                scheme,
                #[trigger] scheme_codes(f, scheme)[k]@,
            ),
    ensures
        codes_unique(signs.push(f), scheme),
{
    let s2 = signs.push(f);
    let n = signs.len() as int;
    assert forall|p: int, k: int, q: int, l: int|
        code_slot(s2, scheme, p, k) && code_slot(s2, scheme, q, l) && (p != q || k
            != l) implies #[trigger] slot_code(s2, scheme, p, k) != #[trigger] slot_code(
        s2,
        scheme,
        q,
        l,
    ) by {
        if p < n && q < n {
            assert(s2[p] == signs[p] && s2[q] == signs[q]);
            assert(slot_code(signs, scheme, p, k) != slot_code(signs, scheme, q, l));
        } else if p < n && q == n {
            assert(s2[p] == signs[p] && s2[q] == f);
            if slot_code(s2, scheme, p, k) == slot_code(s2, scheme, q, l) {
                assert(slot_code(signs, scheme, p, k) == scheme_codes(f, scheme)[l]@);
                assert(has_code(signs, scheme, scheme_codes(f, scheme)[l]@));
            }
        } else if p == n && q < n {
            assert(s2[q] == signs[q] && s2[p] == f);
            if slot_code(s2, scheme, p, k) == slot_code(s2, scheme, q, l) {
                assert(slot_code(signs, scheme, q, l) == scheme_codes(f, scheme)[k]@);
                assert(has_code(signs, scheme, scheme_codes(f, scheme)[k]@));
            }
        } else {
            assert(s2[p] == f && s2[q] == f);
            if k < l {
                assert(scheme_codes(f, scheme)[k]@ != scheme_codes(f, scheme)[l]@);
            } else {
                assert(scheme_codes(f, scheme)[l]@ != scheme_codes(f, scheme)[k]@);
            }
        }
    }
}

/// The signs contributed by a prefix of the entries are a prefix of the
/// signs contributed by all of them.
proof fn lemma_catalog_signs_take_prefix(entries: Seq<CatalogEntry>, j: int)
    requires
        0 <= j <= entries.len(),
    ensures
        catalog_signs(entries.take(j)).is_prefix_of(catalog_signs(entries)),
    decreases entries.len() - j,
{
    if j == entries.len() {
        assert(entries.take(j) =~= entries);
    } else {
        assert(entries.take(j + 1).drop_last() =~= entries.take(j));
        assert(entries.take(j + 1).last() == entries[j]);
        lemma_catalog_signs_take_prefix(entries, j + 1);
        let a = catalog_signs(entries.take(j));
        let b = catalog_signs(entries.take(j + 1));
        let full = catalog_signs(entries);
        assert(a.is_prefix_of(b));
        assert(a =~= full.subrange(0, a.len() as int));
    }
}

/// A code duplicated among a prefix of the catalog is duplicated in the
/// whole catalog.
proof fn lemma_code_duplicated_prefix(
    pre: Seq<FeatureFile>,
    full: Seq<FeatureFile>,
    scheme: char,
    c: Seq<char>,
)
    requires
        pre.is_prefix_of(full),
        code_duplicated(pre, scheme, c),
    ensures
        code_duplicated(full, scheme, c),
{
    let (p, k, q, l) = choose|p: int, k: int, q: int, l: int|
        code_slot(pre, scheme, p, k) && code_slot(pre, scheme, q, l) && (p != q || k != l)
            && #[trigger] slot_code(pre, scheme, p, k) == c && #[trigger] slot_code(
            pre,
            scheme,
            q,
            l,
        ) == c;
    assert(full[p] == pre[p] && full[q] == pre[q]);
    assert(slot_code(full, scheme, p, k) == c && slot_code(full, scheme, q, l) == c);
}

/// Check one sign's code list for one scheme: every code must match the
/// scheme's pattern and must not repeat a code seen anywhere before, this
/// list included.  Accepted codes are appended to `seen`.
fn register_codes(codes: &Vec<String>, scheme: char, seen: &mut Vec<String>, sign_id: &String) -> (r:
    Result<(), LoadError>)
    ensures
        r is Ok <==> ({
            &&& forall|k: int| 0 <= k < codes@.len() ==> is_code(#[trigger] codes@[k]@, scheme)
            &&& forall|k: int, l: int|
                0 <= k < l < codes@.len() ==> #[trigger] codes@[k]@ != #[trigger] codes@[l]@
            &&& forall|k: int| 0 <= k < codes@.len() ==> !mentions(old(seen)@, #[trigger] codes@[k]@)
        }),
        r is Ok ==> final(seen)@ == old(seen)@ + codes@,
        r matches Err(e) ==> match e {
            LoadError::MalformedCode { code, sign_id: sid } => sid@ == sign_id@ && exists|k: int|
                0 <= k < codes@.len() && #[trigger] codes@[k]@ == code@ && !is_code(code@, scheme),
            LoadError::DuplicateCode { code } => (exists|k: int|
                0 <= k < codes@.len() && #[trigger] codes@[k]@ == code@) && (mentions(
                old(seen)@,
                code@,
            ) || exists|k: int, l: int|
                0 <= k < l < codes@.len() && #[trigger] codes@[k]@ == #[trigger] codes@[l]@
                    && codes@[k]@ == code@),
            _ => false,
        },
{
    let n = codes.len();
    let mut k: usize = 0;
    while k < n
        invariant
            0 <= k <= n,
            n == codes@.len(),
            forall|t: int| 0 <= t < k ==> is_code(#[trigger] codes@[t]@, scheme),
            forall|t: int, u: int|
                0 <= t < u < k ==> #[trigger] codes@[t]@ != #[trigger] codes@[u]@,
            forall|t: int| 0 <= t < k ==> !mentions(old(seen)@, #[trigger] codes@[t]@),
            seen@ == old(seen)@ + codes@.take(k as int),
        decreases n - k,
    {
        let code = &codes[k];
        let ghost cv = codes@[k as int]@;
        if !check_code(code, scheme) {
            return Err(
                LoadError::MalformedCode { code: code.clone(), sign_id: sign_id.clone() },
            );
        }
        if contains_code(seen, code) {
            proof {
                lemma_mentions_concat(old(seen)@, codes@.take(k as int), cv);
                if !mentions(old(seen)@, cv) {
                    let m = choose|m: int|
                        0 <= m < codes@.take(k as int).len() && #[trigger] codes@.take(
                            k as int,
                        )[m]@ == cv;
                    assert(codes@[m]@ == cv);
                    assert(codes@[m]@ == codes@[k as int]@);
                }
            }
            return Err(LoadError::DuplicateCode { code: code.clone() });
        }
        proof {
            lemma_mentions_concat(old(seen)@, codes@.take(k as int), cv);
            assert forall|t: int| 0 <= t < k implies #[trigger] codes@[t]@ != cv by {
                if codes@[t]@ == cv {
                    assert(codes@.take(k as int)[t]@ == cv);
                    assert(mentions(codes@.take(k as int), cv));
                }
            }
            assert(seen@.push(codes@[k as int]) =~= old(seen)@ + codes@.take(k as int + 1));
        }
        seen.push(code.clone());
        k += 1;
    }
    proof {
        assert(codes@.take(n as int) =~= codes@);
    }
    Ok(())
}

/// A code listed by kept entry `i` that was already contributed by an
/// earlier entry, or that entry `i` lists twice, is duplicated in the whole
/// catalog, which therefore fails the uniqueness invariant.
proof fn lemma_duplicate_invalidates(entries: Seq<CatalogEntry>, i: int, scheme: char, c: Seq<char>)
    requires
        0 <= i < entries.len(),
        kept(entries[i]),
        mentions(scheme_codes(entries[i].1, scheme), c),
        has_code(catalog_signs(entries.take(i)), scheme, c) || (exists|k: int, l: int|
            0 <= k < l < scheme_codes(entries[i].1, scheme).len() && #[trigger] scheme_codes(
                entries[i].1,
                scheme,
            )[k]@ == c && #[trigger] scheme_codes(entries[i].1, scheme)[l]@ == c),
    ensures
        code_duplicated(catalog_signs(entries), scheme, c),
        !codes_unique(catalog_signs(entries), scheme),
{
    let cs = catalog_signs(entries.take(i));
    let f = entries[i].1;
    assert(entries.take(i + 1).drop_last() =~= entries.take(i));
    assert(entries.take(i + 1).last() == entries[i]);
    let cs2 = catalog_signs(entries.take(i + 1));
    assert(cs2 == cs.push(f));
    let n = cs.len() as int;
    assert(cs2[n] == f);
    if has_code(cs, scheme, c) {
        let (p, k) = choose|p: int, k: int|
            code_slot(cs, scheme, p, k) && #[trigger] slot_code(cs, scheme, p, k) == c;
        let t = choose|t: int|
            0 <= t < scheme_codes(f, scheme).len() && #[trigger] scheme_codes(f, scheme)[t]@ == c;
        assert(cs2[p] == cs[p]);
        assert(slot_code(cs2, scheme, p, k) == c);
        assert(slot_code(cs2, scheme, n, t) == c);
        assert(code_duplicated(cs2, scheme, c));
    } else {
        let (k, l) = choose|k: int, l: int|
            0 <= k < l < scheme_codes(f, scheme).len() && #[trigger] scheme_codes(f, scheme)[k]@
                == c && #[trigger] scheme_codes(f, scheme)[l]@ == c;
        assert(slot_code(cs2, scheme, n, k) == c);
        assert(slot_code(cs2, scheme, n, l) == c);
        assert(code_duplicated(cs2, scheme, c));
    }
    lemma_catalog_signs_take_prefix(entries, i + 1);
    lemma_code_duplicated_prefix(cs2, catalog_signs(entries), scheme, c);
    let full = catalog_signs(entries);
    let (p, k, q, l) = choose|p: int, k: int, q: int, l: int|
        code_slot(full, scheme, p, k) && code_slot(full, scheme, q, l) && (p != q || k != l)
            && #[trigger] slot_code(full, scheme, p, k) == c && #[trigger] slot_code(
            full,
            scheme,
            q,
            l,
        ) == c;
    assert(!codes_unique(full, scheme));
}

/// Build the feature catalog from the files of a catalog directory.
///
/// `entries` holds, for each file, the file's name and the sign definition
/// decoded from its contents.  A file whose base name is
/// "default_features" is a template and contributes no sign.  The load
/// fails on the first violation it meets: a record whose id differs from
/// the id derived from its file's base name, an allograph code that does
/// not match its scheme's pattern, or an allograph code that appears a
/// second time anywhere in the catalog.  On success the catalog holds one
/// sign per kept entry, in entry order.
pub fn build_catalog(entries: Vec<CatalogEntry>) -> (r: Result<Vec<FeatureFile>, LoadError>)
    ensures
        r is Ok <==> catalog_valid(entries@),
        r matches Ok(signs) ==> signs@ == catalog_signs(entries@),
        r matches Err(e) ==> catalog_error_witnessed(entries@, e),
{
    let n = entries.len();
    let template: String = "default_features".to_owned();
    let mut seen_v: Vec<String> = Vec::new();
    let mut seen_w: Vec<String> = Vec::new();
    let mut i: usize = 0;
    while i < n
        invariant
            0 <= i <= n,
            n == entries@.len(),
            template@ == "default_features"@,
            forall|j: int| 0 <= j < i && kept(#[trigger] entries@[j]) ==> entry_ok(entries@[j]),
            forall|c: Seq<char>|
                mentions(seen_v@, c) <==> has_code(
                    catalog_signs(entries@.take(i as int)),
                    PARPOLA_SCHEME,
                    c,
                ),
            forall|c: Seq<char>|
                mentions(seen_w@, c) <==> has_code(
                    catalog_signs(entries@.take(i as int)),
                    WELLS_SCHEME,
                    c,
                ),
            codes_unique(catalog_signs(entries@.take(i as int)), PARPOLA_SCHEME),
            codes_unique(catalog_signs(entries@.take(i as int)), WELLS_SCHEME),
        decreases n - i,
    {
        let e = &entries[i];
        let base = base_name(e.0.as_str());
        proof {
            assert(entries@.take(i as int + 1).drop_last() =~= entries@.take(i as int));
            assert(entries@.take(i as int + 1).last() == entries@[i as int]);
        }
        if string_eq(&base, &template) {
            proof {
                assert(!kept(entries@[i as int]));
                assert(catalog_signs(entries@.take(i as int + 1)) == catalog_signs(
                    entries@.take(i as int),
                ));
            }
            i += 1;
            continue;
        }
        proof {
            assert(kept(entries@[i as int]));
        }
        if !string_eq(&e.1.id, &base) {
            proof {
                assert(!entry_ok(entries@[i as int]));
                assert(!catalog_valid(entries@));
            }
            return Err(
                LoadError::IdentifierMismatch { file_id: base, record_id: e.1.id.clone() },
            );
        }
        let ghost cs = catalog_signs(entries@.take(i as int));
        let ghost f = entries@[i as int].1;
        let ghost pre_v = seen_v@;
        let r_v = register_codes(&e.1.parpola_graphemes, PARPOLA_SCHEME, &mut seen_v, &e.1.id);
        proof {
            assert(scheme_codes(f, PARPOLA_SCHEME) == e.1.parpola_graphemes@);
        }
        if let Err(er) = r_v {
            proof {
                if let LoadError::MalformedCode { code, sign_id: sid } = &er {
                    let k = choose|k: int|
                        0 <= k < e.1.parpola_graphemes@.len()
                            && #[trigger] e.1.parpola_graphemes@[k]@ == code@ && !is_code(
                            code@,
                            PARPOLA_SCHEME,
                        );
                    assert(mentions(entries@[i as int].1.parpola_graphemes@, code@));
                    assert(entry_lists_bad_code(entries@[i as int], code@));
                    assert(malformed_witness(entries@, code@, sid@));
                    assert(!sign_codes_ok(f));
                    assert(!catalog_valid(entries@));
                } else if let LoadError::DuplicateCode { code } = &er {
                    let t = choose|t: int|
                        0 <= t < e.1.parpola_graphemes@.len()
                            && #[trigger] e.1.parpola_graphemes@[t]@ == code@;
                    assert(mentions(scheme_codes(entries@[i as int].1, PARPOLA_SCHEME), code@));
                    if !mentions(pre_v, code@) {
                        let (k, l) = choose|k: int, l: int|
                            0 <= k < l < e.1.parpola_graphemes@.len()
                                && #[trigger] e.1.parpola_graphemes@[k]@
                                == #[trigger] e.1.parpola_graphemes@[l]@
                                && e.1.parpola_graphemes@[k]@ == code@;
                        assert(scheme_codes(entries@[i as int].1, PARPOLA_SCHEME)[k]@ == code@);
                        assert(scheme_codes(entries@[i as int].1, PARPOLA_SCHEME)[l]@ == code@);
                    }
                    lemma_duplicate_invalidates(entries@, i as int, PARPOLA_SCHEME, code@);
                    assert(!catalog_valid(entries@));
                }
            }
            return Err(er);
        }
        let ghost pre_w = seen_w@;
        let r_w = register_codes(&e.1.wells_graphemes, WELLS_SCHEME, &mut seen_w, &e.1.id);
        proof {
            assert(scheme_codes(f, WELLS_SCHEME) == e.1.wells_graphemes@);
        }
        if let Err(er) = r_w {
            proof {
                if let LoadError::MalformedCode { code, sign_id: sid } = &er {
                    let k = choose|k: int|
                        0 <= k < e.1.wells_graphemes@.len() && #[trigger] e.1.wells_graphemes@[k]@
                            == code@ && !is_code(code@, WELLS_SCHEME);
                    assert(mentions(entries@[i as int].1.wells_graphemes@, code@));
                    assert(entry_lists_bad_code(entries@[i as int], code@));
                    assert(malformed_witness(entries@, code@, sid@));
                    assert(!sign_codes_ok(f));
                    assert(!catalog_valid(entries@));
                } else if let LoadError::DuplicateCode { code } = &er {
                    let t = choose|t: int|
                        0 <= t < e.1.wells_graphemes@.len() && #[trigger] e.1.wells_graphemes@[t]@
                            == code@;
                    assert(mentions(scheme_codes(entries@[i as int].1, WELLS_SCHEME), code@));
                    if !mentions(pre_w, code@) {
                        let (k, l) = choose|k: int, l: int|
                            0 <= k < l < e.1.wells_graphemes@.len()
                                && #[trigger] e.1.wells_graphemes@[k]@
                                == #[trigger] e.1.wells_graphemes@[l]@ && e.1.wells_graphemes@[k]@
                                == code@;
                        assert(scheme_codes(entries@[i as int].1, WELLS_SCHEME)[k]@ == code@);
                        assert(scheme_codes(entries@[i as int].1, WELLS_SCHEME)[l]@ == code@);
                    }
                    lemma_duplicate_invalidates(entries@, i as int, WELLS_SCHEME, code@);
                    assert(!catalog_valid(entries@));
                }
            }
            return Err(er);
        }
        proof {
            assert forall|k: int|
                0 <= k < scheme_codes(f, PARPOLA_SCHEME).len() implies !has_code(
                cs,
                PARPOLA_SCHEME,
                #[trigger] scheme_codes(f, PARPOLA_SCHEME)[k]@,
            ) by {
                assert(!mentions(pre_v, e.1.parpola_graphemes@[k]@));
            }
            assert forall|k: int|
                0 <= k < scheme_codes(f, WELLS_SCHEME).len() implies !has_code(
                cs,
                WELLS_SCHEME,
                #[trigger] scheme_codes(f, WELLS_SCHEME)[k]@,
            ) by {
                assert(!mentions(pre_w, e.1.wells_graphemes@[k]@));
            }
            lemma_unique_push(cs, f, PARPOLA_SCHEME);
            lemma_unique_push(cs, f, WELLS_SCHEME);
            assert(catalog_signs(entries@.take(i as int + 1)) == cs.push(f));
            assert(entry_ok(entries@[i as int]));
            assert(seen_v@ == pre_v + e.1.parpola_graphemes@);
            assert(seen_w@ == pre_w + e.1.wells_graphemes@);
            assert forall|c: Seq<char>|
                mentions(seen_v@, c) <==> has_code(
                    catalog_signs(entries@.take(i as int + 1)),
                    PARPOLA_SCHEME,
                    c,
                ) by {
                lemma_mentions_concat(pre_v, e.1.parpola_graphemes@, c);
                lemma_has_code_push(cs, f, PARPOLA_SCHEME, c);
            }
            assert forall|c: Seq<char>|
                mentions(seen_w@, c) <==> has_code(
                    catalog_signs(entries@.take(i as int + 1)),
                    WELLS_SCHEME,
                    c,
                ) by {
                lemma_mentions_concat(pre_w, e.1.wells_graphemes@, c);
                lemma_has_code_push(cs, f, WELLS_SCHEME, c);
            }
        }
        i += 1;
    }
    proof {
        assert(entries@.take(n as int) =~= entries@);
        assert(catalog_valid(entries@));
    }
    let ghost all = entries@;
    let mut rest = entries;
    let mut signs: Vec<FeatureFile> = Vec::new();
    while rest.len() > 0
        invariant
            rest@.len() <= all.len(),
            rest@ == all.skip(all.len() - rest@.len()),
            signs@ == catalog_signs(all.take(all.len() - rest@.len())),
            template@ == "default_features"@,
        decreases rest@.len(),
    {
        let ghost k = all.len() - rest@.len();
        proof {
            assert(all.skip(k)[0] == all[k]);
            assert(all.take(k + 1).drop_last() =~= all.take(k));
            assert(all.take(k + 1).last() == all[k]);
        }
        let entry = rest.remove(0);
        proof {
            assert(entry == all[k]);
            assert(rest@ =~= all.skip(k + 1));
        }
        let base = base_name(entry.0.as_str());
        if !string_eq(&base, &template) {
            proof {
                assert(kept(all[k]));
                assert(catalog_signs(all.take(k + 1)) == catalog_signs(all.take(k)).push(
                    all[k].1,
                ));
            }
            signs.push(entry.1);
        } else {
            proof {
                assert(!kept(all[k]));
                assert(catalog_signs(all.take(k + 1)) == catalog_signs(all.take(k)));
            }
        }
    }
    proof {
        assert(all.take(all.len() as int) =~= all);
    }
    Ok(signs)
}

/// The first sign of the catalog bearing the given id, if any.
pub open spec fn lookup(signs: Seq<FeatureFile>, id: Seq<char>) -> Option<FeatureFile>
    decreases signs.len(),
{
    if signs.len() == 0 {
        None
    } else if signs[0].id@ == id {
        Some(signs[0])
    } else {
        lookup(signs.drop_first(), id)
    }
}

/// Find the sign definition with the given id in the catalog.
pub fn find_sign<'a>(signs: &'a Vec<FeatureFile>, id: &String) -> (r: Option<&'a FeatureFile>)
    ensures
        match r {
            Some(f) => lookup(signs@, id@) == Some(*f),
            None => lookup(signs@, id@) is None,
        },
{
    let n = signs.len();
    let mut i: usize = 0;
    proof {
        assert(signs@.skip(0) =~= signs@);
    }
    while i < n
        invariant
            0 <= i <= n,
            n == signs@.len(),
            lookup(signs@, id@) == lookup(signs@.skip(i as int), id@),
        decreases n - i,
    {
        proof {
            assert(signs@.skip(i as int)[0] == signs@[i as int]);
            assert(signs@.skip(i as int).drop_first() =~= signs@.skip(i as int + 1));
        }
        if string_eq(&signs[i].id, id) {
            return Some(&signs[i]);
        }
        i += 1;
    }
    None
}

/// No two signs of the catalog share an id.
pub open spec fn ids_distinct(signs: Seq<FeatureFile>) -> bool {
    forall|p: int, q: int|
        0 <= p < q < signs.len() ==> #[trigger] signs[p].id@ != #[trigger] signs[q].id@
}

/// A successful lookup returns a sign of the catalog bearing the id asked
/// for; a failed one means no sign of the catalog bears it.
pub proof fn lemma_lookup_props(signs: Seq<FeatureFile>, id: Seq<char>)
    ensures
        lookup(signs, id) matches Some(f) ==> signs.contains(f) && f.id@ == id,
        lookup(signs, id) is None ==> forall|p: int| 0 <= p < signs.len() ==> signs[p].id@ != id,
        (exists|p: int| 0 <= p < signs.len() && #[trigger] signs[p].id@ == id) ==> lookup(
            signs,
            id,
        ) is Some,
    decreases signs.len(),
{
    if signs.len() > 0 {
        if signs[0].id@ == id {
            assert(signs.contains(signs[0]));
        } else {
            let rest = signs.drop_first();
            lemma_lookup_props(rest, id);
            if lookup(signs, id) is Some {
                let f = lookup(signs, id)->Some_0;
                let m = choose|m: int| 0 <= m < rest.len() && rest[m] == f;
                assert(signs[m + 1] == f);
                assert(signs.contains(f));
            }
            if lookup(signs, id) is None {
                assert forall|p: int| 0 <= p < signs.len() implies signs[p].id@ != id by {
                    if p > 0 {
                        assert(rest[p - 1] == signs[p]);
                    }
                }
            }
            if exists|p: int| 0 <= p < signs.len() && #[trigger] signs[p].id@ == id {
                let p = choose|p: int| 0 <= p < signs.len() && #[trigger] signs[p].id@ == id;
                assert(rest[p - 1] == signs[p]);
                assert(exists|q: int| 0 <= q < rest.len() && #[trigger] rest[q].id@ == id);
            }
        }
    }
}

/// Every allograph code of a valid catalog appears in exactly one sign
/// definition's allograph list: no two distinct slots, across the whole
/// catalog, carry the same code under the same scheme.
pub proof fn lemma_allograph_codes_unique(entries: Seq<CatalogEntry>)
    requires
        catalog_valid(entries),
    ensures
        codes_unique(catalog_signs(entries), PARPOLA_SCHEME),
        codes_unique(catalog_signs(entries), WELLS_SCHEME),
{
}

/// In a directory the catalog loader accepts, every kept record's id
/// equals the id derived from its file's base name.
pub proof fn lemma_accepted_ids_match(entries: Seq<CatalogEntry>)
    requires
        catalog_valid(entries),
    ensures
        forall|i: int|
            0 <= i < entries.len() && kept(#[trigger] entries[i]) ==> entries[i].1.id@
                == base_name_of(entries[i].0@),
{
}

/// A kept record whose id differs from its file's base name makes the
/// whole directory invalid, so loading it fails.
pub proof fn lemma_id_mismatch_rejected(entries: Seq<CatalogEntry>, i: int)
    requires
        0 <= i < entries.len(),
        kept(entries[i]),
        entries[i].1.id@ != base_name_of(entries[i].0@),
    ensures
        !catalog_valid(entries),
{
    assert(!entry_ok(entries[i]));
}

/// The kept entries of a directory have pairwise-distinct base names.
pub open spec fn bases_distinct(entries: Seq<CatalogEntry>) -> bool {
    forall|i: int, j: int|
        0 <= i < j < entries.len() && kept(#[trigger] entries[i]) && kept(#[trigger] entries[j])
            ==> base_name_of(entries[i].0@) != base_name_of(entries[j].0@)
}

/// The given id is the base name of some kept entry of the directory.
pub open spec fn id_from_kept_base(entries: Seq<CatalogEntry>, idv: Seq<char>) -> bool {
    exists|i: int|
        0 <= i < entries.len() && kept(#[trigger] entries[i]) && idv == base_name_of(
            entries[i].0@,
        )
}

/// In a catalog built from a directory whose kept files have
/// pairwise-distinct base names, no two signs share an id: the catalog is
/// a mapping keyed by sign id.
pub proof fn lemma_catalog_ids_distinct(entries: Seq<CatalogEntry>)
    requires
        forall|i: int| 0 <= i < entries.len() && kept(#[trigger] entries[i]) ==> entry_ok(entries[i]),
        bases_distinct(entries),
    ensures
        ids_distinct(catalog_signs(entries)),
        forall|p: int|
            0 <= p < catalog_signs(entries).len() ==> id_from_kept_base(
                entries,
                #[trigger] catalog_signs(entries)[p].id@,
            ),
    decreases entries.len(),
{
    let signs = catalog_signs(entries);
    if entries.len() > 0 {
        let d = entries.drop_last();
        assert forall|i: int| 0 <= i < d.len() && kept(#[trigger] d[i]) implies entry_ok(d[i]) by {
            assert(d[i] == entries[i]);
        }
        assert forall|i: int, j: int|
            0 <= i < j < d.len() && kept(#[trigger] d[i]) && kept(
                #[trigger] d[j],
            ) implies base_name_of(d[i].0@) != base_name_of(d[j].0@) by {
            assert(d[i] == entries[i] && d[j] == entries[j]);
        }
        lemma_catalog_ids_distinct(d);
        let ds = catalog_signs(d);
        let last = entries.last();
        let n = entries.len() - 1;
        assert forall|idv: Seq<char>| id_from_kept_base(d, idv) implies id_from_kept_base(
            entries,
            idv,
        ) by {
            let i = choose|i: int|
                0 <= i < d.len() && kept(#[trigger] d[i]) && idv == base_name_of(d[i].0@);
            assert(entries[i] == d[i]);
            assert(kept(entries[i]) && idv == base_name_of(entries[i].0@));
        }
        if kept(last) {
            assert(signs == ds.push(last.1));
            assert(entry_ok(last));
            assert(last.1.id@ == base_name_of(entries[n].0@));
            assert forall|p: int, q: int|
                0 <= p < q < signs.len() implies #[trigger] signs[p].id@
                != #[trigger] signs[q].id@ by {
                if q < ds.len() {
                    assert(signs[p] == ds[p] && signs[q] == ds[q]);
                    assert(ds[p].id@ != ds[q].id@);
                } else {
                    assert(signs[p] == ds[p] && signs[q] == last.1);
                    assert(id_from_kept_base(d, ds[p].id@));
                    let i = choose|i: int|
                        0 <= i < d.len() && kept(#[trigger] d[i]) && ds[p].id@ == base_name_of(
                            d[i].0@,
                        );
                    assert(entries[i] == d[i]);
                    assert(base_name_of(entries[i].0@) != base_name_of(entries[n].0@));
                }
            }
            assert forall|p: int| 0 <= p < signs.len() implies id_from_kept_base(
                entries,
                #[trigger] signs[p].id@,
            ) by {
                if p < ds.len() {
                    assert(signs[p] == ds[p]);
                    assert(id_from_kept_base(d, ds[p].id@));
                } else {
                    assert(signs[p] == last.1);
                    assert(kept(entries[n]) && signs[p].id@ == base_name_of(entries[n].0@));
                }
            }
        } else {
            assert(signs == ds);
            assert forall|p: int| 0 <= p < signs.len() implies id_from_kept_base(
                entries,
                #[trigger] signs[p].id@,
            ) by {
                assert(id_from_kept_base(d, ds[p].id@));
            }
        }
    } else {
        assert(signs.len() == 0);
    }
}

/// Removing one entry from a directory removes exactly that entry's
/// contribution from the catalog's signs, counted as a multiset.
proof fn lemma_signs_multiset_remove(e: Seq<CatalogEntry>, j: int)
    requires
        0 <= j < e.len(),
    ensures
        kept(e[j]) ==> catalog_signs(e).to_multiset() == catalog_signs(
            e.remove(j),
        ).to_multiset().insert(e[j].1),
        !kept(e[j]) ==> catalog_signs(e).to_multiset() == catalog_signs(e.remove(j)).to_multiset(),
    decreases e.len(),
{
    broadcast use vstd::multiset::group_multiset_axioms;

    let d = e.drop_last();
    let last = e.last();
    catalog_signs(d).to_multiset_ensures();
    if j == e.len() - 1 {
        assert(e.remove(j) =~= d);
        if kept(last) {
            assert(catalog_signs(e) == catalog_signs(d).push(last.1));
            assert(catalog_signs(d).push(last.1).to_multiset() =~= catalog_signs(
                d,
            ).to_multiset().insert(last.1));
        }
    } else {
        let er = e.remove(j);
        assert(er.drop_last() =~= d.remove(j));
        assert(er.last() == last);
        assert(e[j] == d[j]);
        lemma_signs_multiset_remove(d, j);
        catalog_signs(d.remove(j)).to_multiset_ensures();
        if kept(last) {
            assert(catalog_signs(e) == catalog_signs(d).push(last.1));
            assert(catalog_signs(er) == catalog_signs(d.remove(j)).push(last.1));
            assert(catalog_signs(d).push(last.1).to_multiset() =~= catalog_signs(
                d,
            ).to_multiset().insert(last.1));
            assert(catalog_signs(d.remove(j)).push(last.1).to_multiset() =~= catalog_signs(
                d.remove(j),
            ).to_multiset().insert(last.1));
            if kept(e[j]) {
                let m = catalog_signs(d.remove(j)).to_multiset();
                assert(m.insert(e[j].1).insert(last.1) =~= m.insert(last.1).insert(e[j].1));
            }
        } else {
            assert(catalog_signs(e) == catalog_signs(d));
            assert(catalog_signs(er) == catalog_signs(d.remove(j)));
        }
    }
}

/// Two directories holding the same files, in whatever order, contribute
/// the same sign definitions: the catalog's content does not depend on
/// the order in which the directory hands out its files.
pub proof fn lemma_catalog_content_order_independent(e1: Seq<CatalogEntry>, e2: Seq<CatalogEntry>)
    requires
        e1.to_multiset() == e2.to_multiset(),
    ensures
        catalog_signs(e1).to_multiset() == catalog_signs(e2).to_multiset(),
    decreases e1.len(),
{
    broadcast use vstd::multiset::group_multiset_axioms;

    e1.to_multiset_ensures();
    e2.to_multiset_ensures();
    if e1.len() == 0 {
        assert(e2.to_multiset().len() == 0);
        assert(e2.len() == 0);
    } else {
        let x = e1.last();
        let n1 = e1.len() - 1;
        assert(e1[n1] == x);
        assert(e1.contains(x));
        assert(e1.to_multiset().count(x) > 0);
        assert(e2.to_multiset().count(x) > 0);
        assert(e2.contains(x));
        let j = choose|j: int| 0 <= j < e2.len() && e2[j] == x;
        assert(e1.remove(n1) =~= e1.drop_last());
        assert(e1.remove(n1).to_multiset() =~= e1.to_multiset().remove(x));
        assert(e2.remove(j).to_multiset() =~= e2.to_multiset().remove(x));
        lemma_catalog_content_order_independent(e1.drop_last(), e2.remove(j));
        lemma_signs_multiset_remove(e2, j);
        catalog_signs(e1.drop_last()).to_multiset_ensures();
        if kept(x) {
            assert(catalog_signs(e1) == catalog_signs(e1.drop_last()).push(x.1));
            assert(catalog_signs(e1.drop_last()).push(x.1).to_multiset() =~= catalog_signs(
                e1.drop_last(),
            ).to_multiset().insert(x.1));
        } else {
            assert(catalog_signs(e1) == catalog_signs(e1.drop_last()));
        }
    }
}

/// A value carried twice by a sequence, counted as a multiset, stands at
/// two distinct positions.
proof fn lemma_two_copies_two_indices(s: Seq<FeatureFile>, x: FeatureFile)
    requires
        s.to_multiset().count(x) >= 2,
    ensures
        exists|i: int, j: int| 0 <= i < j < s.len() && #[trigger] s[i] == x && #[trigger] s[j] == x,
{
    broadcast use vstd::multiset::group_multiset_axioms;

    s.to_multiset_ensures();
    assert(s.contains(x));
    let i1 = choose|i: int| 0 <= i < s.len() && s[i] == x;
    let r = s.remove(i1);
    assert(r.to_multiset() =~= s.to_multiset().remove(x));
    assert(r.to_multiset().count(x) >= 1);
    r.to_multiset_ensures();
    assert(r.contains(x));
    let i2 = choose|j: int| 0 <= j < r.len() && r[j] == x;
    if i2 < i1 {
        assert(s[i2] == r[i2]);
        assert(s[i2] == x && s[i1] == x);
    } else {
        assert(s[i2 + 1] == r[i2]);
        assert(s[i1] == x && s[i2 + 1] == x);
    }
}

/// Global code uniqueness carries over to any catalog holding the same
/// sign definitions, in whatever order.
proof fn lemma_codes_unique_order_independent(
    s1: Seq<FeatureFile>,
    s2: Seq<FeatureFile>,
    scheme: char,
)
    requires
        s1.to_multiset() == s2.to_multiset(),
        codes_unique(s1, scheme),
    ensures
        codes_unique(s2, scheme),
{
    broadcast use vstd::multiset::group_multiset_axioms;

    s1.to_multiset_ensures();
    s2.to_multiset_ensures();
    assert forall|p: int, k: int, q: int, l: int|
        code_slot(s2, scheme, p, k) && code_slot(s2, scheme, q, l) && (p != q || k
            != l) implies #[trigger] slot_code(s2, scheme, p, k) != #[trigger] slot_code(
        s2,
        scheme,
        q,
        l,
    ) by {
        if slot_code(s2, scheme, p, k) == slot_code(s2, scheme, q, l) {
            if p == q {
                assert(s2.contains(s2[p]));
                assert(s2.to_multiset().count(s2[p]) > 0);
                assert(s1.to_multiset().count(s2[p]) > 0);
                assert(s1.contains(s2[p]));
                let i = choose|i: int| 0 <= i < s1.len() && s1[i] == s2[p];
                assert(slot_code(s1, scheme, i, k) == slot_code(s2, scheme, p, k));
                assert(slot_code(s1, scheme, i, l) == slot_code(s2, scheme, q, l));
            } else if s2[p] != s2[q] {
                assert(s2.contains(s2[p]) && s2.contains(s2[q]));
                assert(s2.to_multiset().count(s2[p]) > 0 && s2.to_multiset().count(s2[q]) > 0);
                assert(s1.to_multiset().count(s2[p]) > 0 && s1.to_multiset().count(s2[q]) > 0);
                assert(s1.contains(s2[p]) && s1.contains(s2[q]));
                let i = choose|i: int| 0 <= i < s1.len() && s1[i] == s2[p];
                let j = choose|j: int| 0 <= j < s1.len() && s1[j] == s2[q];
                assert(slot_code(s1, scheme, i, k) == slot_code(s2, scheme, p, k));
                assert(slot_code(s1, scheme, j, l) == slot_code(s2, scheme, q, l));
            } else {
                let x = s2[p];
                let r = s2.remove(p);
                assert(r.to_multiset() =~= s2.to_multiset().remove(x));
                let q2: int = if q < p {
                    q
                } else {
                    q - 1
                };
                assert(r[q2] == s2[q]);
                r.to_multiset_ensures();
                assert(r.contains(x));
                assert(r.to_multiset().count(x) >= 1);
                assert(s1.to_multiset().count(x) >= 2);
                lemma_two_copies_two_indices(s1, x);
                let (i, j) = choose|i: int, j: int|
                    0 <= i < j < s1.len() && #[trigger] s1[i] == x && #[trigger] s1[j] == x;
                assert(slot_code(s1, scheme, i, k) == slot_code(s2, scheme, p, k));
                assert(slot_code(s1, scheme, j, k) == slot_code(s2, scheme, q, l));
            }
        }
    }
}

/// A directory the catalog loader accepts is accepted however the
/// directory scan orders its files.
pub proof fn lemma_catalog_valid_order_independent(e1: Seq<CatalogEntry>, e2: Seq<CatalogEntry>)
    requires
        e1.to_multiset() == e2.to_multiset(),
        catalog_valid(e1),
    ensures
        catalog_valid(e2),
{
    broadcast use vstd::multiset::group_multiset_axioms;

    e1.to_multiset_ensures();
    e2.to_multiset_ensures();
    assert forall|i: int|
        0 <= i < e2.len() && kept(#[trigger] e2[i]) implies entry_ok(e2[i]) by {
        assert(e2.contains(e2[i]));
        assert(e2.to_multiset().count(e2[i]) > 0);
        assert(e1.to_multiset().count(e2[i]) > 0);
        assert(e1.contains(e2[i]));
        let j = choose|j: int| 0 <= j < e1.len() && e1[j] == e2[i];
        assert(kept(e1[j]) && entry_ok(e1[j]));
    }
    lemma_catalog_content_order_independent(e1, e2);
    lemma_codes_unique_order_independent(
        catalog_signs(e1),
        catalog_signs(e2),
        PARPOLA_SCHEME,
    );
    lemma_codes_unique_order_independent(catalog_signs(e1), catalog_signs(e2), WELLS_SCHEME);
}

/// Loading is insensitive to the order in which the directory hands out
/// its files: two catalogs holding the same sign definitions, ids
/// distinct, answer every lookup alike.
pub proof fn lemma_lookup_order_independent(
    s1: Seq<FeatureFile>,
    s2: Seq<FeatureFile>,
    id: Seq<char>,
)
    requires
        s1.to_multiset() == s2.to_multiset(),
        ids_distinct(s1),
    ensures
        lookup(s1, id) == lookup(s2, id),
{
    broadcast use vstd::seq_lib::group_seq_properties;

    lemma_lookup_props(s1, id);
    lemma_lookup_props(s2, id);
    s1.to_multiset_ensures();
    s2.to_multiset_ensures();
    match lookup(s1, id) {
        Some(f) => {
            assert(s1.contains(f));
            assert(s1.to_multiset().count(f) > 0);
            assert(s2.contains(f));
            let p2 = choose|p: int| 0 <= p < s2.len() && s2[p] == f;
            assert(s2[p2].id@ == id);
            assert(lookup(s2, id) is Some);
            let g = lookup(s2, id)->Some_0;
            assert(s2.contains(g) && g.id@ == id);
            assert(s2.to_multiset().count(g) > 0);
            assert(s1.contains(g));
            let pf = choose|p: int| 0 <= p < s1.len() && s1[p] == f;
            let pg = choose|p: int| 0 <= p < s1.len() && s1[p] == g;
            if pf != pg {
                if pf < pg {
                    assert(s1[pf].id@ != s1[pg].id@);
                } else {
                    assert(s1[pg].id@ != s1[pf].id@);
                }
            }
            assert(f == g);
        },
        None => {
            if lookup(s2, id) is Some {
                let g = lookup(s2, id)->Some_0;
                assert(s2.contains(g) && g.id@ == id);
                assert(s2.to_multiset().count(g) > 0);
                assert(s1.contains(g));
                let p = choose|p: int| 0 <= p < s1.len() && s1[p] == g;
                assert(s1[p].id@ != id);
            }
        },
    }
}

} // verus!
