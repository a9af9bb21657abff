//! Locating bookmark payloads inside a login-items value tree.

use vstd::prelude::*;

use crate::value::{PlistValue, MIN_BOOKMARK_SIZE};

verus! {

/// The dictionary key under which a keyed archive stores its flattened
/// object table.
pub open spec fn spec_objects_key() -> Seq<char> {
    "$objects"@
}

/// The value of the first entry whose key is `$objects`, if any.
pub open spec fn spec_find_objects(entries: Seq<(String, PlistValue)>) -> Option<PlistValue>
    decreases entries.len(),
{
    if entries.len() == 0 {
        None
    } else if entries[0].0@ == spec_objects_key() {
        Some(entries[0].1)
    } else {
        spec_find_objects(entries.drop_first())
    }
}

/// The bookmark payloads contributed by a dictionary nested inside the
/// object array: the bytes of its `Data` entries, in entry order, keeping
/// only those of at least [`MIN_BOOKMARK_SIZE`] bytes. Keys play no role.
pub open spec fn spec_dict_bookmarks(entries: Seq<(String, PlistValue)>) -> Seq<Seq<u8>>
    decreases entries.len(),
{
    if entries.len() == 0 {
        Seq::empty()
    } else {
        let rest = spec_dict_bookmarks(entries.drop_first());
        match entries[0].1 {
            PlistValue::Data(d) => if d@.len() >= MIN_BOOKMARK_SIZE {
                seq![d@] + rest
            } else {
                rest
            },
            _ => rest,
        }
    }
}

/// The bookmark payloads contributed by one element of the object array:
/// a `Data` element contributes its bytes unconditionally (no size filter
/// at this level), a `Dictionary` element contributes its size-filtered
/// `Data` entries, and anything else contributes nothing.
pub open spec fn spec_elem_bookmarks(v: PlistValue) -> Seq<Seq<u8>> {
    match v {
        PlistValue::Data(d) => seq![d@],
        PlistValue::Dictionary(entries) => spec_dict_bookmarks(entries@),
        _ => Seq::empty(),
    }
}

/// All bookmark payloads of an object array, in element order.
pub open spec fn spec_array_bookmarks(elems: Seq<PlistValue>) -> Seq<Seq<u8>>
    decreases elems.len(),
{
    if elems.len() == 0 {
        Seq::empty()
    } else {
        spec_elem_bookmarks(elems[0]) + spec_array_bookmarks(elems.drop_first())
    }
}

/// What extraction yields on a dictionary root, as a mathematical value:
/// `None` for the one hard failure (a `$objects` entry that is not an
/// array), otherwise the payload sequence — empty when the key is absent.
pub open spec fn spec_extract(entries: Seq<(String, PlistValue)>) -> Option<Seq<Seq<u8>>> {
    match spec_find_objects(entries) {
        None => Some(Seq::empty()),
        Some(obj) => match obj {
            PlistValue::Array(elems) => Some(spec_array_bookmarks(elems@)),
            _ => None,
        },
    }
}

/// The one hard failure of extraction.
#[derive(Debug)]
pub enum ExtractionError {
    /// The `$objects` entry exists but is not an array: the file follows
    /// some other schema. Carries the expected kind's name and the name of
    /// the variant actually found, for diagnostics.
    UnexpectedType { expected: String, found: String },
}

/// Collect the size-filtered `Data` payloads of a dictionary nested inside
/// the object array.
fn collect_dict_bookmarks(entries: &Vec<(String, PlistValue)>) -> (r: Vec<Vec<u8>>)
    ensures
        r.deep_view() == spec_dict_bookmarks(entries@),
{
    let mut out: Vec<Vec<u8>> = Vec::new();
    let mut i: usize = 0;
    proof {
        assert(out.deep_view() =~= Seq::<Seq<u8>>::empty());
        assert(entries@.skip(0) =~= entries@);
        assert(out.deep_view() + spec_dict_bookmarks(entries@) =~= spec_dict_bookmarks(entries@));
    }
    while i < entries.len()
        invariant
            i <= entries.len(),
            out.deep_view() + spec_dict_bookmarks(entries@.skip(i as int)) == spec_dict_bookmarks(
                entries@,
            ),
        decreases entries@.len() - i,
    {
        proof {
            assert(entries@.skip(i as int)[0] == entries@[i as int]);
            assert(entries@.skip(i as int).drop_first() =~= entries@.skip(i as int + 1));
        }
        let ghost prev = out.deep_view();
        let ghost rest = spec_dict_bookmarks(entries@.skip(i as int + 1));
        let pair = &entries[i];
        match &pair.1 {
            PlistValue::Data(d) => {
                if d.len() >= MIN_BOOKMARK_SIZE {
                    out.push(vstd::slice::slice_to_vec(d.as_slice()));
                    proof {
                        assert(out.deep_view() =~~= prev + seq![d@]);
                        assert((prev + seq![d@]) + rest =~~= prev + (seq![d@] + rest));
                    }
                }
            },
            _ => {},
        }
        i += 1;
    }
    proof {
        assert(entries@.skip(entries@.len() as int) =~= Seq::<(String, PlistValue)>::empty());
        assert(out.deep_view() + Seq::<Seq<u8>>::empty() =~= out.deep_view());
    }
    out
}

/// Walk the object array once, collecting bookmark payloads in element
/// order: top-level `Data` unconditionally, dictionary-nested `Data` under
/// the size filter, everything else skipped.
fn collect_array_bookmarks(elems: &Vec<PlistValue>) -> (r: Vec<Vec<u8>>)
    ensures
        r.deep_view() == spec_array_bookmarks(elems@),
{
    let mut out: Vec<Vec<u8>> = Vec::new();
    let mut i: usize = 0;
    proof {
        assert(out.deep_view() =~= Seq::<Seq<u8>>::empty());
        assert(elems@.skip(0) =~= elems@);
        assert(out.deep_view() + spec_array_bookmarks(elems@) =~= spec_array_bookmarks(elems@));
    }
    while i < elems.len()
        invariant
            i <= elems.len(),
            out.deep_view() + spec_array_bookmarks(elems@.skip(i as int)) == spec_array_bookmarks(
                elems@,
            ),
        decreases elems@.len() - i,
    {
        proof {
            assert(elems@.skip(i as int)[0] == elems@[i as int]);
            assert(elems@.skip(i as int).drop_first() =~= elems@.skip(i as int + 1));
        }
        let ghost prev = out.deep_view();
        let ghost rest = spec_array_bookmarks(elems@.skip(i as int + 1));
        match &elems[i] {
            PlistValue::Data(d) => {
                out.push(vstd::slice::slice_to_vec(d.as_slice()));
                proof {
                    assert(out.deep_view() =~~= prev + seq![d@]);
                    assert((prev + seq![d@]) + rest =~~= prev + (seq![d@] + rest));
                }
            },
            PlistValue::Dictionary(dict_entries) => {
                let mut nested = collect_dict_bookmarks(dict_entries);
                let ghost nested_dv = nested.deep_view();
                out.append(&mut nested);
                proof {
                    assert(out.deep_view() =~~= prev + nested_dv);
                    assert((prev + nested_dv) + rest =~~= prev + (nested_dv + rest));
                }
            },
            _ => {
                proof {
                    assert(prev + (Seq::<Seq<u8>>::empty() + rest) =~~= prev + rest);
                }
            },
        }
        i += 1;
    }
    proof {
        assert(elems@.skip(elems@.len() as int) =~= Seq::<PlistValue>::empty());
        assert(out.deep_view() + Seq::<Seq<u8>>::empty() =~= out.deep_view());
    }
    out
}

/// Extract every candidate bookmark payload from a login-items dictionary.
///
/// The entry named `$objects` (the first such entry, should the key repeat)
/// must hold an array; its elements are walked in order and their bookmark
/// payloads collected. A missing `$objects` key is not an error: many valid
/// login-items files carry no bookmark data, and the result is then empty.
/// The input tree is only read, never changed.
pub fn extract_bookmarks(root: &PlistValue) -> (r: Result<Vec<Vec<u8>>, ExtractionError>)
    requires
        *root is Dictionary,
    ensures
        r is Ok <==> spec_extract(root->Dictionary_0@) is Some,
        r matches Ok(v) ==> Some(v.deep_view()) == spec_extract(root->Dictionary_0@),
        spec_find_objects(root->Dictionary_0@) is None ==> (r matches Ok(v) && v.deep_view()
            == Seq::<Seq<u8>>::empty()),
        r matches Err(e) ==> ({
            &&& spec_find_objects(root->Dictionary_0@) matches Some(obj)
            &&& !(obj is Array)
            &&& e matches ExtractionError::UnexpectedType { expected, found }
            &&& expected@ == "array"@
            &&& found@ == obj.spec_variant_name()
        }),
{
    match root {
        PlistValue::Dictionary(entries) => {
            let target: String = String::from_str("$objects");
            let mut i: usize = 0;
            proof {
                assert(entries@.skip(0) =~= entries@);
            }
            while i < entries.len()
                invariant
                    i <= entries.len(),
                    *root == PlistValue::Dictionary(*entries),
                    target@ == spec_objects_key(),
                    spec_find_objects(entries@.skip(i as int)) == spec_find_objects(entries@),
                decreases entries@.len() - i,
            {
                proof {
                    assert(entries@.skip(i as int)[0] == entries@[i as int]);
                    assert(entries@.skip(i as int).drop_first() =~= entries@.skip(i as int + 1));
                }
                let pair = &entries[i];
                if pair.0 == target {
                    proof {
                        assert(spec_find_objects(entries@) == Some(entries@[i as int].1));
                    }
                    match &pair.1 {
                        PlistValue::Array(elems) => {
                            proof {
                                assert(entries@[i as int].1 == PlistValue::Array(*elems));
                            }
                            return Ok(collect_array_bookmarks(elems));
                        },
                        other => {
                            return Err(ExtractionError::UnexpectedType {
                                expected: String::from_str("array"),
                                found: String::from_str(other.variant_name()),
                            });
                        },
                    }
                }
                i += 1;
            }
            proof {
                assert(entries@.skip(entries@.len() as int) =~= Seq::<(String, PlistValue)>::empty());
            }
            let empty: Vec<Vec<u8>> = Vec::new();
            proof {
                assert(empty.deep_view() =~= Seq::<Seq<u8>>::empty());
            }
            Ok(empty)
        },
        _ => unreached(),
    }
}

/// Output order follows array order: the payloads of a concatenation of two
/// object arrays are the payloads of the first followed by the payloads of
/// the second. In particular, whenever one element precedes another, its
/// contribution precedes the other's in the result.
pub proof fn lemma_array_bookmarks_concat(a: Seq<PlistValue>, b: Seq<PlistValue>)
    ensures
        spec_array_bookmarks(a + b) == spec_array_bookmarks(a) + spec_array_bookmarks(b),
    decreases a.len(),
{
    if a.len() == 0 {
        assert(a + b =~= b);
        assert(spec_array_bookmarks(a) + spec_array_bookmarks(b) =~= spec_array_bookmarks(b));
    } else {
        lemma_array_bookmarks_concat(a.drop_first(), b);
        assert((a + b)[0] == a[0]);
        assert((a + b).drop_first() =~= a.drop_first() + b);
        assert(spec_elem_bookmarks(a[0]) + (spec_array_bookmarks(a.drop_first())
            + spec_array_bookmarks(b)) =~= (spec_elem_bookmarks(a[0]) + spec_array_bookmarks(
            a.drop_first(),
        )) + spec_array_bookmarks(b));
    }
}

/// The same, for the entries of a dictionary nested inside the object
/// array: the filtered payloads come out in entry order.
pub proof fn lemma_dict_bookmarks_concat(
    a: Seq<(String, PlistValue)>,
    b: Seq<(String, PlistValue)>,
)
    ensures
        spec_dict_bookmarks(a + b) == spec_dict_bookmarks(a) + spec_dict_bookmarks(b),
    decreases a.len(),
{
    if a.len() == 0 {
        assert(a + b =~= b);
        assert(spec_dict_bookmarks(a) + spec_dict_bookmarks(b) =~= spec_dict_bookmarks(b));
    } else {
        lemma_dict_bookmarks_concat(a.drop_first(), b);
        assert((a + b)[0] == a[0]);
        assert((a + b).drop_first() =~= a.drop_first() + b);
        match a[0].1 {
            PlistValue::Data(d) => {
                if d@.len() >= MIN_BOOKMARK_SIZE {
                    assert(seq![d@] + (spec_dict_bookmarks(a.drop_first()) + spec_dict_bookmarks(
                        b,
                    )) =~= (seq![d@] + spec_dict_bookmarks(a.drop_first()))
                        + spec_dict_bookmarks(b));
                }
            },
            _ => {},
        }
    }
}

/// A `Data` element at the top level of the object array is always
/// included, whatever its length: no size filter applies there.
pub proof fn lemma_top_level_data_included(elems: Seq<PlistValue>, i: int)
    requires
        0 <= i < elems.len(),
        elems[i] is Data,
    ensures
        spec_array_bookmarks(elems).contains(elems[i]->Data_0@),
{
    let front = elems.take(i);
    let back = elems.skip(i);
    assert(elems =~= front + back);
    lemma_array_bookmarks_concat(front, back);
    assert(back[0] == elems[i]);
    let d = elems[i]->Data_0@;
    assert(spec_elem_bookmarks(back[0]) == seq![d]);
    let at = spec_array_bookmarks(front).len() as int;
    assert(spec_array_bookmarks(elems)[at] == d);
}

/// A `Data` entry of a dictionary nested in the object array is included
/// exactly when it reaches the minimum bookmark size; the boundary is
/// inclusive at exactly [`MIN_BOOKMARK_SIZE`] bytes.
pub proof fn lemma_nested_data_included(entries: Seq<(String, PlistValue)>, i: int)
    requires
        0 <= i < entries.len(),
        entries[i].1 is Data,
        entries[i].1->Data_0@.len() >= MIN_BOOKMARK_SIZE,
    ensures
        spec_dict_bookmarks(entries).contains(entries[i].1->Data_0@),
{
    let front = entries.take(i);
    let back = entries.skip(i);
    assert(entries =~= front + back);
    lemma_dict_bookmarks_concat(front, back);
    assert(back[0] == entries[i]);
    let d = entries[i].1->Data_0@;
    let at = spec_dict_bookmarks(front).len() as int;
    assert(spec_dict_bookmarks(entries)[at] == d);
}

/// Nothing shorter than the minimum bookmark size survives the nested
/// dictionary filter: every payload it yields is at least
/// [`MIN_BOOKMARK_SIZE`] bytes long. Together with
/// [`lemma_nested_data_included`] this pins the filter's boundary.
pub proof fn lemma_dict_bookmarks_min_len(entries: Seq<(String, PlistValue)>)
    ensures
        forall|k: int|
            0 <= k < spec_dict_bookmarks(entries).len() ==> #[trigger] spec_dict_bookmarks(
                entries,
            )[k].len() >= MIN_BOOKMARK_SIZE,
    decreases entries.len(),
{
    if entries.len() > 0 {
        lemma_dict_bookmarks_min_len(entries.drop_first());
        let rest = spec_dict_bookmarks(entries.drop_first());
        assert forall|k: int| 0 <= k < spec_dict_bookmarks(entries).len() implies #[trigger]
        spec_dict_bookmarks(entries)[k].len() >= MIN_BOOKMARK_SIZE by {
            match entries[0].1 {
                PlistValue::Data(d) => {
                    if d@.len() >= MIN_BOOKMARK_SIZE {
                        if k == 0 {
                            assert(spec_dict_bookmarks(entries)[k] == d@);
                        } else {
                            assert(spec_dict_bookmarks(entries)[k] == rest[k - 1]);
                        }
                    } else {
                        assert(spec_dict_bookmarks(entries)[k] == rest[k]);
                    }
                },
                _ => {
                    assert(spec_dict_bookmarks(entries)[k] == rest[k]);
                },
            }
        }
    }
}

} // verus!
