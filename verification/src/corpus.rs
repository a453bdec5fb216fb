//! The corpus loader: validates the artefact records read from a corpus
//! directory tree against an already-built catalog.  Every face must carry
//! the number encoded in its file's base name, every sign occurrence must
//! reference a sign of the catalog, and every occurrence must supply
//! exactly the three default attribute values plus one value per attribute
//! of the referenced sign.

use vstd::prelude::*;

use crate::catalog::find_sign;
use crate::catalog::lookup;
use crate::error::LoadError;
use crate::records::Artefact;
use crate::records::ArtefactFace;
use crate::records::FeatureFile;
use crate::records::Grapheme;
use crate::text::base_name;
use crate::text::base_name_of;
use crate::text::has_numeric;
use crate::text::numeric_component;
use crate::text::numeric_of;

verus! {

/// One file of a corpus directory tree: the file's name and the artefact
/// decoded from its contents.
pub type CorpusEntry = (String, Artefact);

/// A sign occurrence is consistent with the catalog: its sign id is
/// defined there, and it carries exactly the three default attribute
/// values plus one value per attribute of the referenced sign.
pub open spec fn grapheme_ok(g: Grapheme, catalog: Seq<FeatureFile>) -> bool {
    &&& lookup(catalog, g.id@) is Some
    &&& g.features@.len() == 3 + lookup(catalog, g.id@)->Some_0.features@.len()
}

/// A face is consistent with its file and the catalog: the file's base
/// name and the face's id both carry a number, the two numbers agree, and
/// every sign occurrence on the face is consistent with the catalog.
pub open spec fn face_ok(
    file_base: Seq<char>,
    face: ArtefactFace,
    catalog: Seq<FeatureFile>,
) -> bool {
    &&& has_numeric(file_base)
    &&& has_numeric(face.id@)
    &&& numeric_of(file_base) == numeric_of(face.id@)
    &&& forall|g: int|
        0 <= g < face.graphemes@.len() ==> grapheme_ok(#[trigger] face.graphemes@[g], catalog)
}

/// Every face of every artefact of the corpus is consistent with its file
/// and the catalog.
pub open spec fn corpus_valid(files: Seq<CorpusEntry>, catalog: Seq<FeatureFile>) -> bool {
    forall|f: int, a: int|
        0 <= f < files.len() && 0 <= a < files[f].1@.len() ==> face_ok(
            base_name_of(files[f].0@),
            #[trigger] files[f].1@[a],
            catalog,
        )
}

/// What each error of the corpus loader attests about the corpus files
/// and the catalog.
pub open spec fn corpus_error_witnessed(
    files: Seq<CorpusEntry>,
    catalog: Seq<FeatureFile>,
    e: LoadError,
) -> bool {
    match e {
        LoadError::ParseFailure { text } => !has_numeric(text@) && exists|f: int, a: int|
            0 <= f < files.len() && 0 <= a < files[f].1@.len() && (text@ == base_name_of(
                files[f].0@,
            ) || text@ == (#[trigger] files[f].1@[a]).id@),
        LoadError::FaceIdMismatch { file_name, face_id, file_number, face_number } => exists|
            f: int,
            a: int,
        |
            0 <= f < files.len() && 0 <= a < files[f].1@.len() && file_name@ == base_name_of(
                files[f].0@,
            ) && face_id@ == (#[trigger] files[f].1@[a]).id@ && has_numeric(file_name@)
                && has_numeric(face_id@) && file_number == numeric_of(file_name@) && face_number
                == numeric_of(face_id@) && file_number != face_number,
        LoadError::UnknownSign { sign_id } => lookup(catalog, sign_id@) is None && exists|
            f: int,
            a: int,
            g: int,
        |
            0 <= f < files.len() && 0 <= a < files[f].1@.len() && 0 <= g
                < files[f].1@[a].graphemes@.len() && sign_id@ == (#[trigger] files[f].1@[a].graphemes@[g]).id@,
        LoadError::FeatureCountMismatch { sign_id, expected, actual, file_name } => exists|
            f: int,
            a: int,
            g: int,
        |
            0 <= f < files.len() && 0 <= a < files[f].1@.len() && 0 <= g
                < files[f].1@[a].graphemes@.len() && {
                let gr = #[trigger] files[f].1@[a].graphemes@[g];
                &&& sign_id@ == gr.id@
                &&& file_name@ == base_name_of(files[f].0@)
                &&& lookup(catalog, gr.id@) is Some
                &&& expected == 3 + lookup(catalog, gr.id@)->Some_0.features@.len()
                &&& actual == gr.features@.len()
                &&& expected != actual
            },
        _ => false,
    }
}

/// The artefacts a corpus directory's files hold, in file order.
pub open spec fn artefacts_of(files: Seq<CorpusEntry>) -> Seq<Artefact> {
    files.map_values(|p: CorpusEntry| p.1)
}

/// Validate a corpus against a catalog and hand back its artefacts.
///
/// `files` holds, for each file found anywhere under the corpus root, the
/// file's name and the artefact decoded from its contents.  The load
/// fails on the first violation it meets: a file base name or face id
/// without a usable number, a face whose number differs from its file's,
/// a sign occurrence referencing a sign the catalog does not define, or
/// one whose attribute values do not number exactly three plus the sign's
/// own attribute count.  On success the artefacts come back in file
/// order.
pub fn validate_corpus(files: Vec<CorpusEntry>, catalog: &Vec<FeatureFile>) -> (r: Result<
    Vec<Artefact>,
    LoadError,
>)
    ensures
        r is Ok <==> corpus_valid(files@, catalog@),
        r matches Ok(v) ==> v@ == artefacts_of(files@),
        r matches Err(e) ==> corpus_error_witnessed(files@, catalog@, e),
{
    let nf = files.len();
    let mut fi: usize = 0;
    while fi < nf
        invariant
            0 <= fi <= nf,
            nf == files@.len(),
            forall|f: int, a: int|
                0 <= f < fi && 0 <= a < files@[f].1@.len() ==> face_ok(
                    base_name_of(files@[f].0@),
                    #[trigger] files@[f].1@[a],
                    catalog@,
                ),
        decreases nf - fi,
    {
        let entry = &files[fi];
        let base = base_name(entry.0.as_str());
        let file_num_opt = numeric_component(base.as_str());
        let faces = &entry.1;
        let na = faces.len();
        let mut ai: usize = 0;
        while ai < na
            invariant
                0 <= ai <= na,
                0 <= fi < nf,
                nf == files@.len(),
                na == faces@.len(),
                faces@ == files@[fi as int].1@,
                base@ == base_name_of(files@[fi as int].0@),
                match file_num_opt {
                    Some(v) => has_numeric(base@) && v == numeric_of(base@),
                    None => !has_numeric(base@),
                },
                forall|a: int|
                    0 <= a < ai ==> face_ok(base@, #[trigger] faces@[a], catalog@),
            decreases na - ai,
        {
            let face = &faces[ai];
            let file_number = match file_num_opt {
                Some(v) => v,
                None => {
                    proof {
                        assert(!face_ok(base@, files@[fi as int].1@[ai as int], catalog@));
                        assert(!corpus_valid(files@, catalog@));
                    }
                    return Err(LoadError::ParseFailure { text: base });
                },
            };
            let face_number = match numeric_component(face.id.as_str()) {
                Some(v) => v,
                None => {
                    proof {
                        assert(files@[fi as int].1@[ai as int].id@ == face.id@);
                        assert(!face_ok(base@, files@[fi as int].1@[ai as int], catalog@));
                        assert(!corpus_valid(files@, catalog@));
                    }
                    return Err(LoadError::ParseFailure { text: face.id.clone() });
                },
            };
            if file_number != face_number {
                proof {
                    assert(files@[fi as int].1@[ai as int].id@ == face.id@);
                    assert(!face_ok(base@, files@[fi as int].1@[ai as int], catalog@));
                    assert(!corpus_valid(files@, catalog@));
                }
                return Err(
                    LoadError::FaceIdMismatch {
                        file_name: base,
                        face_id: face.id.clone(),
                        file_number,
                        face_number,
                    },
                );
            }
            let ng = face.graphemes.len();
            let mut gi: usize = 0;
            while gi < ng
                invariant
                    0 <= gi <= ng,
                    0 <= fi < nf,
                    0 <= ai < na,
                    nf == files@.len(),
                    na == faces@.len(),
                    ng == face.graphemes@.len(),
                    faces@ == files@[fi as int].1@,
                    face == &faces@[ai as int],
                    base@ == base_name_of(files@[fi as int].0@),
                    forall|g: int|
                        0 <= g < gi ==> grapheme_ok(#[trigger] face.graphemes@[g], catalog@),
                decreases ng - gi,
            {
                let gr = &face.graphemes[gi];
                proof {
                    assert(files@[fi as int].1@[ai as int].graphemes@[gi as int] == face.graphemes@[gi as int]);
                }
                match find_sign(catalog, &gr.id) {
                    None => {
                        proof {
                            assert(!grapheme_ok(face.graphemes@[gi as int], catalog@));
                            assert(!face_ok(base@, files@[fi as int].1@[ai as int], catalog@));
                            assert(!corpus_valid(files@, catalog@));
                        }
                        return Err(LoadError::UnknownSign { sign_id: gr.id.clone() });
                    },
                    Some(sign) => {
                        let expected: u128 = 3 + (sign.features.len() as u128);
                        let actual: u128 = gr.features.len() as u128;
                        if expected != actual {
                            proof {
                                assert(!grapheme_ok(face.graphemes@[gi as int], catalog@));
                                assert(!face_ok(base@, files@[fi as int].1@[ai as int], catalog@));
                                assert(!corpus_valid(files@, catalog@));
                            }
                            return Err(
                                LoadError::FeatureCountMismatch {
                                    sign_id: gr.id.clone(),
                                    expected,
                                    actual,
                                    file_name: base,
                                },
                            );
                        }
                    },
                }
                gi += 1;
            }
            proof {
                assert(face_ok(base@, faces@[ai as int], catalog@));
            }
            ai += 1;
        }
        proof {
            assert forall|f: int, a: int|
                0 <= f < fi + 1 && 0 <= a < files@[f].1@.len() implies face_ok(
                base_name_of(files@[f].0@),
                #[trigger] files@[f].1@[a],
                catalog@,
            ) by {
                if f == fi {
                    assert(face_ok(base@, faces@[a], catalog@));
                }
            }
        }
        fi += 1;
    }
    let ghost all = files@;
    let mut rest = files;
    let mut arts: Vec<Artefact> = Vec::new();
    while rest.len() > 0
        invariant
            rest@.len() <= all.len(),
            rest@ == all.skip(all.len() - rest@.len()),
            arts@ == artefacts_of(all.take(all.len() - rest@.len())),
        decreases rest@.len(),
    {
        let ghost k = all.len() - rest@.len();
        proof {
            assert(all.skip(k)[0] == all[k]);
        }
        let entry = rest.remove(0);
        proof {
            assert(rest@ =~= all.skip(k + 1));
        }
        arts.push(entry.1);
        proof {
            assert(arts@ =~= artefacts_of(all.take(k + 1)));
        }
    }
    proof {
        assert(all.take(all.len() as int) =~= all);
    }
    Ok(arts)
}

/// A corpus that validates keeps validating when the directory walk hands
/// its files out in another order.
pub proof fn lemma_corpus_valid_order_independent(
    f1: Seq<CorpusEntry>,
    f2: Seq<CorpusEntry>,
    catalog: Seq<FeatureFile>,
)
    requires
        f1.to_multiset() == f2.to_multiset(),
        corpus_valid(f1, catalog),
    ensures
        corpus_valid(f2, catalog),
{
    broadcast use vstd::multiset::group_multiset_axioms;

    f1.to_multiset_ensures();
    f2.to_multiset_ensures();
    assert forall|f: int, a: int|
        0 <= f < f2.len() && 0 <= a < f2[f].1@.len() implies face_ok(
        base_name_of(f2[f].0@),
        #[trigger] f2[f].1@[a],
        catalog,
    ) by {
        assert(f2.contains(f2[f]));
        assert(f2.to_multiset().count(f2[f]) > 0);
        assert(f1.to_multiset().count(f2[f]) > 0);
        assert(f1.contains(f2[f]));
        let i = choose|i: int| 0 <= i < f1.len() && f1[i] == f2[f];
        assert(face_ok(base_name_of(f1[i].0@), f1[i].1@[a], catalog));
    }
}

/// Two corpus directories holding the same files, in whatever order, hold
/// the same artefacts.
pub proof fn lemma_artefacts_order_independent(f1: Seq<CorpusEntry>, f2: Seq<CorpusEntry>)
    requires
        f1.to_multiset() == f2.to_multiset(),
    ensures
        artefacts_of(f1).to_multiset() == artefacts_of(f2).to_multiset(),
    decreases f1.len(),
{
    broadcast use vstd::multiset::group_multiset_axioms;

    f1.to_multiset_ensures();
    f2.to_multiset_ensures();
    let m1 = artefacts_of(f1);
    let m2 = artefacts_of(f2);
    if f1.len() == 0 {
        assert(f2.to_multiset().len() == 0);
        assert(f2.len() == 0);
        assert(m1 =~= m2);
    } else {
        let x = f1.last();
        let n1 = f1.len() - 1;
        assert(f1[n1] == x);
        assert(f1.contains(x));
        assert(f1.to_multiset().count(x) > 0);
        assert(f2.to_multiset().count(x) > 0);
        assert(f2.contains(x));
        let j = choose|j: int| 0 <= j < f2.len() && f2[j] == x;
        assert(f1.remove(n1) =~= f1.drop_last());
        assert(f1.remove(n1).to_multiset() =~= f1.to_multiset().remove(x));
        assert(f2.remove(j).to_multiset() =~= f2.to_multiset().remove(x));
        lemma_artefacts_order_independent(f1.drop_last(), f2.remove(j));
        assert(artefacts_of(f1.drop_last()) =~= m1.drop_last());
        assert(artefacts_of(f2.remove(j)) =~= m2.remove(j));
        m1.drop_last().to_multiset_ensures();
        m2.to_multiset_ensures();
        assert(m1 =~= m1.drop_last().push(x.1));
        assert(m1.drop_last().push(x.1).to_multiset() =~= m1.drop_last().to_multiset().insert(
            x.1,
        ));
        assert(m2.remove(j).to_multiset() =~= m2.to_multiset().remove(m2[j]));
        assert(m2[j] == x.1);
        assert(m2.contains(m2[j]));
        assert(m2.to_multiset().count(x.1) > 0);
        assert(m1.to_multiset() =~= m2.to_multiset().remove(x.1).insert(x.1));
        assert(m2.to_multiset().remove(x.1).insert(x.1) =~= m2.to_multiset());
    }
}

/// Every sign occurrence of a validated corpus carries exactly the three
/// default attribute values plus one value per attribute of the sign's
/// catalog entry.
pub proof fn lemma_feature_counts(files: Seq<CorpusEntry>, catalog: Seq<FeatureFile>)
    requires
        corpus_valid(files, catalog),
    ensures
        forall|f: int, a: int, g: int|
            0 <= f < files.len() && 0 <= a < files[f].1@.len() && 0 <= g
                < files[f].1@[a].graphemes@.len() ==> {
                let gr = #[trigger] files[f].1@[a].graphemes@[g];
                lookup(catalog, gr.id@) is Some && gr.features@.len() == 3 + lookup(
                    catalog,
                    gr.id@,
                )->Some_0.features@.len()
            },
{
    assert forall|f: int, a: int, g: int|
        0 <= f < files.len() && 0 <= a < files[f].1@.len() && 0 <= g
            < files[f].1@[a].graphemes@.len() implies {
        let gr = #[trigger] files[f].1@[a].graphemes@[g];
        lookup(catalog, gr.id@) is Some && gr.features@.len() == 3 + lookup(
            catalog,
            gr.id@,
        )->Some_0.features@.len()
    } by {
        assert(face_ok(base_name_of(files[f].0@), files[f].1@[a], catalog));
        assert(grapheme_ok(files[f].1@[a].graphemes@[g], catalog));
    }
}

} // verus!
