//! Applying a page selection to a PDF document held in memory.
//!
//! The document is a `lopdf::Document`. This module reads its pages, works
//! out which of them to delete, and has them deleted and the document's
//! streams compressed. Loading and saving are left to the caller.
//!
//! What is said here of `lopdf` is taken on trust: the type declarations,
//! the specification functions without a body, the contracts of the
//! functions marked `external_body`, each of which makes one call, and the
//! contracts given to `lopdf::Document::delete_pages` and
//! `lopdf::Document::compress`. Everything else is proved.

use crate::resolve::{
    all_in_range, contains_id, deletion, full_sequence, is_first_out_of_range,
    lemma_deletion_count, lemma_full_sequence_deletes_nothing, resolve, ResolveError,
};
use vstd::prelude::*;

verus! {

/// `lopdf::Document`, a PDF document in memory. Nothing is known of what is
/// inside but through the functions below.
#[verifier::external_type_specification]
#[verifier::external_body]
pub struct ExDocument(lopdf::Document);

/// `lopdf::Object`, one object of a document: a number, a name, a
/// dictionary, a reference to another object and so on.
#[verifier::external_type_specification]
#[verifier::external_body]
pub struct ExObject(lopdf::Object);

/// `lopdf::Dictionary`, a dictionary object: objects under keys.
#[verifier::external_type_specification]
#[verifier::external_body]
pub struct ExDictionary(lopdf::Dictionary);

/// The pages of `doc` in the order of their page numbers: each page number
/// with the identifier of the page's object, as `lopdf::Document::get_pages`
/// gives them.
pub uninterp spec fn document_pages(doc: lopdf::Document) -> Seq<(u32, (u32, u16))>;

/// The identifiers under which `doc` holds objects: the keys of
/// `doc.objects`, in the map's order.
pub uninterp spec fn object_ids(doc: lopdf::Document) -> Seq<(u32, u16)>;

/// The object that `doc` holds under the identifier `id`, if it holds one:
/// the entry of `doc.objects` for `id`.
pub uninterp spec fn object_of(doc: lopdf::Document, id: (u32, u16)) -> Option<lopdf::Object>;

/// The dictionary that `object` is, if it is one.
pub uninterp spec fn dictionary_of(object: lopdf::Object) -> Option<lopdf::Dictionary>;

/// The objects that `object` lists, if it is an array.
pub uninterp spec fn array_of(object: lopdf::Object) -> Option<Seq<lopdf::Object>>;

/// The object that `dict` holds under `key`, if it holds one.
pub uninterp spec fn entry_of(dict: lopdf::Dictionary, key: Seq<char>) -> Option<lopdf::Object>;

/// The identifier that `object` refers to, if it is a reference.
pub uninterp spec fn reference_of(object: lopdf::Object) -> Option<(u32, u16)>;

/// The number that `object` is, if it is an integer.
pub uninterp spec fn integer_of(object: lopdf::Object) -> Option<i64>;

/// The dictionary that `lopdf::Document::get_dictionary` finds for `id`:
/// the object under `id`, or the object that it leads to by references, if
/// that is a dictionary.
pub uninterp spec fn dictionary_at(doc: lopdf::Document, id: (u32, u16)) -> Option<
    lopdf::Dictionary,
>;

/// The object that `lopdf::Dictionary::get_deref` finds under `key`: the
/// entry of `dict` for `key`, or the object of `doc` that it leads to by
/// references.
pub uninterp spec fn entry_through_of(
    dict: lopdf::Dictionary,
    key: Seq<char>,
    doc: lopdf::Document,
) -> Option<lopdf::Object>;

/// The document that `lopdf::Document::delete_pages` makes of `doc` when it
/// is called with `page_numbers`.
pub uninterp spec fn document_after_deleting(
    doc: lopdf::Document,
    page_numbers: Seq<u32>,
) -> lopdf::Document;

/// The document that `lopdf::Document::compress` makes of `doc`.
pub uninterp spec fn document_compressed(doc: lopdf::Document) -> lopdf::Document;

/// Lists the keys of `doc.objects`, the map from identifiers to objects, in
/// the map's order. The contract gives the list its name, [`object_ids`],
/// and says that it holds every identifier under which the map has an
/// object.
#[verifier::external_body]
fn object_keys(doc: &lopdf::Document) -> (ids: Vec<(u32, u16)>)
    ensures
        ids@ == object_ids(*doc),
        forall|id: (u32, u16)| #[trigger] object_of(*doc, id) is Some ==> ids@.contains(id),
{
    doc.objects.keys().copied().collect()
}

/// Looks `id` up in `doc.objects`. The contract gives the result its name,
/// [`object_of`].
#[verifier::external_body]
fn object_at(doc: &lopdf::Document, id: (u32, u16)) -> (object: Option<&lopdf::Object>)
    ensures
        match object {
            Some(found) => object_of(*doc, id) == Some(*found),
            None => object_of(*doc, id) is None,
        },
{
    doc.objects.get(&id)
}

/// Calls `lopdf::Object::as_dict`, which gives the dictionary if the object
/// is one and an error otherwise. The contract gives the result its name,
/// [`dictionary_of`].
#[verifier::external_body]
fn as_dictionary(object: &lopdf::Object) -> (dict: Option<&lopdf::Dictionary>)
    ensures
        match dict {
            Some(found) => dictionary_of(*object) == Some(*found),
            None => dictionary_of(*object) is None,
        },
{
    object.as_dict().ok()
}

/// Calls `lopdf::Object::as_array`, which gives the list of objects if the
/// object is an array and an error otherwise. The contract gives the result
/// its name, [`array_of`].
#[verifier::external_body]
fn as_array(object: &lopdf::Object) -> (items: Option<&Vec<lopdf::Object>>)
    ensures
        match items {
            Some(found) => array_of(*object) == Some(found@),
            None => array_of(*object) is None,
        },
{
    object.as_array().ok()
}

/// Calls `lopdf::Dictionary::get` with the bytes of `key`, which gives the
/// object under that key if there is one and an error otherwise. The
/// contract gives the result its name, [`entry_of`].
#[verifier::external_body]
fn dictionary_entry<'a>(dict: &'a lopdf::Dictionary, key: &str) -> (entry: Option<
    &'a lopdf::Object,
>)
    ensures
        match entry {
            Some(found) => entry_of(*dict, key@) == Some(*found),
            None => entry_of(*dict, key@) is None,
        },
{
    dict.get(key.as_bytes()).ok()
}

/// Calls `lopdf::Object::as_reference`, which gives the identifier referred
/// to if the object is a reference and an error otherwise. The contract
/// gives the result its name, [`reference_of`].
#[verifier::external_body]
fn as_reference(object: &lopdf::Object) -> (id: Option<(u32, u16)>)
    ensures
        id == reference_of(*object),
{
    object.as_reference().ok()
}

/// Calls `lopdf::Object::as_i64`, which gives the number if the object is an
/// integer and an error otherwise. The contract gives the result its name,
/// [`integer_of`].
#[verifier::external_body]
fn as_integer(object: &lopdf::Object) -> (number: Option<i64>)
    ensures
        number == integer_of(*object),
{
    object.as_i64().ok()
}

/// Calls `lopdf::Document::get_dictionary`, which follows references from
/// the object under `id`, at most 128 of them, and gives the object it
/// arrives at if that is a dictionary, and an error otherwise. The contract
/// gives the result its name, [`dictionary_at`].
#[verifier::external_body]
fn dictionary_behind<'a>(doc: &'a lopdf::Document, id: (u32, u16)) -> (dict: Option<
    &'a lopdf::Dictionary,
>)
    ensures
        match dict {
            Some(found) => dictionary_at(*doc, id) == Some(*found),
            None => dictionary_at(*doc, id) is None,
        },
{
    doc.get_dictionary(id).ok()
}

/// Calls `lopdf::Dictionary::get_deref` with the bytes of `key`, which takes
/// the entry under that key, follows references from it through `doc`, at
/// most 128 of them, and gives the object it arrives at, or an error. The
/// contract gives the result its name, [`entry_through_of`].
#[verifier::external_body]
fn dictionary_entry_through<'a>(
    dict: &'a lopdf::Dictionary,
    key: &str,
    doc: &'a lopdf::Document,
) -> (entry: Option<&'a lopdf::Object>)
    ensures
        match entry {
            Some(found) => entry_through_of(*dict, key@, *doc) == Some(*found),
            None => entry_through_of(*dict, key@, *doc) is None,
        },
{
    dict.get_deref(key.as_bytes(), doc).ok()
}

/// The object under `key` in the dictionary that `doc` holds under `id`.
/// `None` if `doc` holds no dictionary under `id` or the dictionary has no
/// entry under `key`.
pub open spec fn entry_under(doc: lopdf::Document, id: (u32, u16), key: Seq<char>) -> Option<
    lopdf::Object,
> {
    match object_of(doc, id) {
        Some(object) => match dictionary_of(object) {
            Some(dict) => entry_of(dict, key),
            None => None,
        },
        None => None,
    }
}

/// The object that the dictionary under `id` names as its parent: what its
/// entry `Parent` refers to. `None` if `doc` holds no dictionary under `id`
/// or the dictionary has no reference there.
pub open spec fn parent_of(doc: lopdf::Document, id: (u32, u16)) -> Option<(u32, u16)> {
    match entry_under(doc, id, "Parent"@) {
        Some(entry) => reference_of(entry),
        None => None,
    }
}

/// The number under `Count` in the dictionary under `id`. `None` if `doc`
/// holds no dictionary under `id` or the dictionary has no integer there.
pub open spec fn count_of(doc: lopdf::Document, id: (u32, u16)) -> Option<i64> {
    match entry_under(doc, id, "Count"@) {
        Some(entry) => integer_of(entry),
        None => None,
    }
}

/// The objects listed under `Kids` in the dictionary under `id`. `None` if
/// `doc` holds no dictionary under `id` or the dictionary has no array
/// there.
pub open spec fn kids_of(doc: lopdf::Document, id: (u32, u16)) -> Option<Seq<lopdf::Object>> {
    match entry_under(doc, id, "Kids"@) {
        Some(entry) => array_of(entry),
        None => None,
    }
}

/// The object under `key` in the dictionary that `doc` holds under `id`.
fn entry_at<'a>(doc: &'a lopdf::Document, id: (u32, u16), key: &str) -> (entry: Option<
    &'a lopdf::Object,
>)
    ensures
        match entry {
            Some(found) => entry_under(*doc, id, key@) == Some(*found),
            None => entry_under(*doc, id, key@) is None,
        },
{
    match object_at(doc, id) {
        Some(object) => match as_dictionary(object) {
            Some(dict) => dictionary_entry(dict, key),
            None => None,
        },
        None => None,
    }
}

/// The object that the dictionary under `id` names as its parent.
fn parent_reference(doc: &lopdf::Document, id: (u32, u16)) -> (parent: Option<(u32, u16)>)
    ensures
        parent == parent_of(*doc, id),
{
    match entry_at(doc, id, "Parent") {
        Some(entry) => as_reference(entry),
        None => None,
    }
}

/// The number under `Count` in the dictionary under `id`.
fn count_entry(doc: &lopdf::Document, id: (u32, u16)) -> (count: Option<i64>)
    ensures
        count == count_of(*doc, id),
{
    match entry_at(doc, id, "Count") {
        Some(entry) => as_integer(entry),
        None => None,
    }
}

/// How many pages, at most, `lopdf` expects behind the entry `kid` of a list
/// of kids while it walks the page tree: the number that the dictionary
/// behind `kid` gives as its `Count`, where there is one and it is more
/// than 1, and 1 otherwise.
pub open spec fn kid_weight(doc: lopdf::Document, kid: lopdf::Object) -> nat {
    match reference_of(kid) {
        Some(id) => match dictionary_at(doc, id) {
            Some(dict) => match entry_through_of(dict, "Count"@, doc) {
                Some(entry) => match integer_of(entry) {
                    Some(count) => if count > 1 {
                        count as nat
                    } else {
                        1
                    },
                    None => 1,
                },
                None => 1,
            },
            None => 1,
        },
        None => 1,
    }
}

/// The sum of [`kid_weight`] over `kids`.
pub open spec fn kids_weight(doc: lopdf::Document, kids: Seq<lopdf::Object>) -> nat
    decreases kids.len(),
{
    if kids.len() == 0 {
        0
    } else {
        kids_weight(doc, kids.drop_last()) + kid_weight(doc, kids.last())
    }
}

/// The greatest [`kids_weight`] of a list of kids with which the pages of a
/// document can be listed. While `lopdf` walks the page tree it holds at
/// most 257 lists, each the rest of the list of kids of one dictionary, and
/// the vector that collects the pages reserves room, beside the entries it
/// has, for one entry more than it expects behind all of those lists
/// together. An entry takes 12 bytes and a vector no more than `isize::MAX`
/// bytes. The limit reckons with 16 bytes for an entry, which leaves a
/// quarter of that room to the entries collected so far.
pub open spec fn weight_limit() -> nat {
    ((isize::MAX / 16 - 1) / 257) as nat
}

/// Whether the pages of `doc` can be listed: no dictionary of `doc` has a
/// list of kids whose [`kids_weight`] is above [`weight_limit`].
pub open spec fn listable(doc: lopdf::Document) -> bool {
    forall|id: (u32, u16)|
        (#[trigger] kids_of(doc, id)) matches Some(kids) ==> kids_weight(doc, kids)
            <= weight_limit()
}

/// Whether the page numbers of `pages` ascend strictly.
pub open spec fn numbers_ascend(pages: Seq<(u32, (u32, u16))>) -> bool {
    forall|i: int, j: int| 0 <= i < j < pages.len() ==> pages[i].0 < pages[j].0
}

/// Calls `lopdf::Document::get_pages` and lists the entries of the map it
/// returns, in the map's order, which is the ascending order of its keys.
///
/// `get_pages` collects the pages into a vector first, and the vector
/// reserves room for as many entries as the walk through the page tree says
/// are still to come: the sum, over the kids it still holds, of the `Count`
/// for a node of the tree and of 1 for anything else. The call panics where
/// that sum, or the number of bytes for it, is too large: [`listable`]
/// leaves such documents out, see [`weight_limit`].
///
/// The contract gives the list its name, [`document_pages`], and says that
/// the page numbers ascend strictly.
#[verifier::external_body]
fn page_entries(doc: &lopdf::Document) -> (entries: Vec<(u32, (u32, u16))>)
    requires
        listable(*doc),
    ensures
        entries@ == document_pages(*doc),
        numbers_ascend(entries@),
{
    doc.get_pages().into_iter().collect()
}

/// What [`resolve_and_apply`] gives as the cause when it refuses a document
/// for its page tree.
pub const MALFORMED_PAGE_TREE: &'static str = "the page tree of the document is malformed";

/// Whether `page_numbers` holds the page number `number`.
pub open spec fn is_listed(page_numbers: Seq<u32>, number: u32) -> bool {
    page_numbers.contains(number)
}

/// Whether `node` is one of the first `depth` objects on the chain of
/// parents above the object `id`.
pub open spec fn is_above(doc: lopdf::Document, id: (u32, u16), node: (u32, u16), depth: nat) -> bool
    decreases depth,
{
    match parent_of(doc, id) {
        None => false,
        Some(parent) => depth > 0 && (parent == node || is_above(
            doc,
            parent,
            node,
            (depth - 1) as nat,
        )),
    }
}

/// How many of the pages `pages` are listed in `page_numbers` and have
/// `node` on the chain of parents above them.
pub open spec fn pages_below(
    doc: lopdf::Document,
    pages: Seq<(u32, (u32, u16))>,
    page_numbers: Seq<u32>,
    node: (u32, u16),
) -> nat
    decreases pages.len(),
{
    if pages.len() == 0 {
        0
    } else {
        let last = pages.last();
        let more: nat = if is_listed(page_numbers, last.0) && is_above(
            doc,
            last.1,
            node,
            object_ids(doc).len(),
        ) {
            1
        } else {
            0
        };
        pages_below(doc, pages.drop_last(), page_numbers, node) + more
    }
}

/// Whether the count of the node `node`, if it has one, can be lowered by
/// one for every page of `doc` below it that `page_numbers` lists.
pub open spec fn count_allows(doc: lopdf::Document, node: (u32, u16), page_numbers: Seq<u32>) -> bool {
    match count_of(doc, node) {
        Some(count) => count - pages_below(doc, document_pages(doc), page_numbers, node)
            >= i64::MIN,
        None => true,
    }
}

/// Whether the chain of parents that starts above the object `id` ends
/// after at most `depth` nodes, each of which has a count that allows the
/// deletion of the pages `page_numbers`.
pub open spec fn chain_ends_within(
    doc: lopdf::Document,
    id: (u32, u16),
    depth: nat,
    page_numbers: Seq<u32>,
) -> bool
    decreases depth,
{
    match parent_of(doc, id) {
        None => true,
        Some(parent) => depth > 0 && count_allows(doc, parent, page_numbers) && chain_ends_within(
            doc,
            parent,
            (depth - 1) as nat,
            page_numbers,
        ),
    }
}

/// Whether the pages `page_numbers` can be deleted from `doc`: above each
/// page of `doc` that is listed, the chain of parents ends, and the count of
/// each node on it can be lowered once for every listed page below the
/// node.
///
/// A chain that ends passes no object twice, so it has no more nodes than
/// the document has objects: a chain that does not end within that many
/// nodes never ends.
pub open spec fn deletable(doc: lopdf::Document, page_numbers: Seq<u32>) -> bool {
    forall|i: int|
        0 <= i < document_pages(doc).len() && is_listed(
            page_numbers,
            (#[trigger] document_pages(doc)[i]).0,
        ) ==> chain_ends_within(
            doc,
            document_pages(doc)[i].1,
            object_ids(doc).len(),
            page_numbers,
        )
}

/// The page numbers of the pages `pages`, in their order.
pub open spec fn page_numbers_of(pages: Seq<(u32, (u32, u16))>) -> Seq<u32> {
    Seq::new(pages.len(), |i: int| pages[i].0)
}

/// `lopdf::Document::delete_pages` takes the page numbers to delete. It
/// numbers the pages once, when it starts, with
/// `lopdf::Document::get_pages`. Then, for each listed number that is the
/// number of a page whose object is still there, it removes the object and
/// the references to it, and walks up along the `Parent` references that
/// start at the removed page, lowering by one the `Count` of each
/// dictionary it comes by.
///
/// The numbering needs a document that is [`listable`]. The call returns
/// only if each walk ends, and it must not lower a `Count` below the least
/// `i64`: [`deletable`] asks for both, of the document as it is before the
/// call. That is enough for the whole call, since deleting a page removes
/// objects and entries and lowers counts, and never adds a `Parent` entry:
/// each walk stays on the chain that was above its page before the call, and
/// passes an object once at most.
///
/// Of the outcome the contract says that a call which lists no page of the
/// document leaves the document as it was, and it gives the document after
/// any call its name, [`document_after_deleting`].
pub assume_specification[ lopdf::Document::delete_pages ](
    doc: &mut lopdf::Document,
    page_numbers: &[u32],
)
    requires
        listable(*old(doc)),
        deletable(*old(doc), page_numbers@),
    ensures
        *final(doc) == document_after_deleting(*old(doc), page_numbers@),
        (forall|i: int|
            0 <= i < document_pages(*old(doc)).len() ==> !is_listed(
                page_numbers@,
                (#[trigger] document_pages(*old(doc))[i]).0,
            )) ==> *final(doc) == *old(doc),
;

/// `lopdf::Document::compress` compresses the content of the stream objects
/// of the document. The contract gives the document after the call its
/// name, [`document_compressed`]. The call changes stream objects only, and
/// `lopdf::Document::get_pages` finds the pages through the trailer and
/// through dictionary and reference objects alone: the contract says that
/// the pages stay what they were.
pub assume_specification[ lopdf::Document::compress ](doc: &mut lopdf::Document)
    ensures
        *final(doc) == document_compressed(*old(doc)),
        document_pages(*final(doc)) == document_pages(*old(doc)),
;

/// The weight of a list of kids is at least the weight of each of its
/// beginnings.
proof fn lemma_kids_weight_prefix(doc: lopdf::Document, kids: Seq<lopdf::Object>, k: int)
    requires
        0 <= k <= kids.len(),
    ensures
        kids_weight(doc, kids.take(k)) <= kids_weight(doc, kids),
    decreases kids.len(),
{
    if k == kids.len() {
        assert(kids.take(k) =~= kids);
    } else {
        lemma_kids_weight_prefix(doc, kids.drop_last(), k);
        assert(kids.drop_last().take(k) =~= kids.take(k));
    }
}

/// No more pages are below a node than there are pages.
proof fn lemma_pages_below_bound(
    doc: lopdf::Document,
    pages: Seq<(u32, (u32, u16))>,
    page_numbers: Seq<u32>,
    node: (u32, u16),
)
    ensures
        pages_below(doc, pages, page_numbers, node) <= pages.len(),
    decreases pages.len(),
{
    if pages.len() > 0 {
        lemma_pages_below_bound(doc, pages.drop_last(), page_numbers, node);
    }
}

/// The value of [`weight_limit`].
fn weight_limit_value() -> (limit: usize)
    ensures
        limit == weight_limit(),
{
    ((isize::MAX as usize) / 16 - 1) / 257
}

/// The weight of the entry `kid` of a list of kids.
fn weight_of_kid(doc: &lopdf::Document, kid: &lopdf::Object) -> (weight: u64)
    ensures
        weight == kid_weight(*doc, *kid),
{
    let id = match as_reference(kid) {
        Some(id) => id,
        None => {
            return 1;
        },
    };
    let dict = match dictionary_behind(doc, id) {
        Some(dict) => dict,
        None => {
            return 1;
        },
    };
    let entry = match dictionary_entry_through(dict, "Count", doc) {
        Some(entry) => entry,
        None => {
            return 1;
        },
    };
    match as_integer(entry) {
        Some(count) => if count > 1 {
            count as u64
        } else {
            1
        },
        None => 1,
    }
}

/// Tells whether the weight of the list `kids` is at most `limit`.
fn kids_within(doc: &lopdf::Document, kids: &Vec<lopdf::Object>, limit: usize) -> (ok: bool)
    ensures
        ok == (kids_weight(*doc, kids@) <= limit),
{
    let mut sum: u128 = 0;
    let mut i: usize = 0;
    while i < kids.len()
        invariant
            0 <= i <= kids@.len(),
            sum == kids_weight(*doc, kids@.take(i as int)),
            sum <= limit,
        decreases kids@.len() - i,
    {
        let weight = weight_of_kid(doc, &kids[i]);
        proof {
            assert(kids@.take(i + 1).drop_last() =~= kids@.take(i as int));
            assert(kids@.take(i + 1).last() == kids@[i as int]);
            lemma_kids_weight_prefix(*doc, kids@, i + 1);
        }
        sum = sum + weight as u128;
        if sum > limit as u128 {
            return false;
        }
        i = i + 1;
    }
    assert(kids@.take(i as int) =~= kids@);
    true
}

/// Tells whether the pages of `doc` can be listed. `ids` holds the
/// identifiers of the objects of `doc`.
fn is_listable(doc: &lopdf::Document, ids: &Vec<(u32, u16)>) -> (ok: bool)
    requires
        forall|id: (u32, u16)| #[trigger] object_of(*doc, id) is Some ==> ids@.contains(id),
    ensures
        ok == listable(*doc),
{
    let limit = weight_limit_value();
    let mut i: usize = 0;
    while i < ids.len()
        invariant
            0 <= i <= ids@.len(),
            limit == weight_limit(),
            forall|k: int|
                0 <= k < i ==> ((#[trigger] kids_of(*doc, ids@[k])) matches Some(kids)
                    ==> kids_weight(*doc, kids) <= weight_limit()),
        decreases ids@.len() - i,
    {
        match entry_at(doc, ids[i], "Kids") {
            Some(entry) => match as_array(entry) {
                Some(kids) => {
                    if !kids_within(doc, kids, limit) {
                        assert(kids_of(*doc, ids@[i as int]) == Some(kids@));
                        return false;
                    }
                },
                None => {},
            },
            None => {},
        }
        i = i + 1;
    }
    assert forall|id: (u32, u16)| (#[trigger] kids_of(*doc, id)) is Some implies kids_weight(
        *doc,
        kids_of(*doc, id)->0,
    ) <= weight_limit() by {
        assert(object_of(*doc, id) is Some);
        let k = choose|k: int| 0 <= k < ids@.len() && ids@[k] == id;
        assert(kids_of(*doc, ids@[k]) is Some);
    }
    true
}

/// Tells whether `node` is one of the first `depth` objects on the chain of
/// parents above the object `id`.
fn is_above_node(
    doc: &lopdf::Document,
    id: (u32, u16),
    node: (u32, u16),
    depth: usize,
) -> (above: bool)
    ensures
        above == is_above(*doc, id, node, depth as nat),
{
    let mut current = id;
    let mut steps: usize = 0;
    loop
        invariant
            0 <= steps <= depth,
            is_above(*doc, id, node, depth as nat) == is_above(
                *doc,
                current,
                node,
                (depth - steps) as nat,
            ),
        decreases depth - steps,
    {
        let parent = match parent_reference(doc, current) {
            None => {
                return false;
            },
            Some(parent) => parent,
        };
        if steps == depth {
            return false;
        }
        if parent.0 == node.0 && parent.1 == node.1 {
            return true;
        }
        current = parent;
        steps = steps + 1;
    }
}

/// Counts the pages of `doc` that `page_numbers` lists and that have `node`
/// on the chain of parents above them. `entries` holds the pages of `doc`
/// and `depth` is the number of its objects.
fn count_pages_below(
    doc: &lopdf::Document,
    entries: &Vec<(u32, (u32, u16))>,
    page_numbers: &Vec<u32>,
    node: (u32, u16),
    depth: usize,
) -> (count: usize)
    requires
        entries@ == document_pages(*doc),
        depth == object_ids(*doc).len(),
    ensures
        count == pages_below(*doc, document_pages(*doc), page_numbers@, node),
{
    let mut count: usize = 0;
    let mut i: usize = 0;
    while i < entries.len()
        invariant
            0 <= i <= entries@.len(),
            depth == object_ids(*doc).len(),
            count == pages_below(*doc, entries@.take(i as int), page_numbers@, node),
            count <= i,
        decreases entries@.len() - i,
    {
        let (number, id) = entries[i];
        proof {
            assert(entries@.take(i + 1).drop_last() =~= entries@.take(i as int));
            assert(entries@.take(i + 1).last() == entries@[i as int]);
        }
        if contains_id(page_numbers, number) && is_above_node(doc, id, node, depth) {
            count = count + 1;
        }
        i = i + 1;
    }
    assert(entries@.take(i as int) =~= entries@);
    count
}

/// Tells whether the count of `node` allows the deletion of the pages
/// `page_numbers`. `entries` holds the pages of `doc` and `depth` is the
/// number of its objects.
fn count_can_be_lowered(
    doc: &lopdf::Document,
    entries: &Vec<(u32, (u32, u16))>,
    page_numbers: &Vec<u32>,
    node: (u32, u16),
    depth: usize,
) -> (ok: bool)
    requires
        entries@ == document_pages(*doc),
        depth == object_ids(*doc).len(),
    ensures
        ok == count_allows(*doc, node, page_numbers@),
{
    match count_entry(doc, node) {
        None => true,
        Some(count) => {
            proof {
                lemma_pages_below_bound(*doc, document_pages(*doc), page_numbers@, node);
            }
            if count as i128 - entries.len() as i128 >= i64::MIN as i128 {
                true
            } else {
                let below = count_pages_below(doc, entries, page_numbers, node, depth);
                count as i128 - below as i128 >= i64::MIN as i128
            }
        },
    }
}

/// Tells whether the chain of parents above the object `id` ends after at
/// most `depth` nodes, each with a count that allows the deletion of the
/// pages `page_numbers`. `entries` holds the pages of `doc` and `depth` is
/// the number of its objects.
fn chain_is_safe(
    doc: &lopdf::Document,
    entries: &Vec<(u32, (u32, u16))>,
    page_numbers: &Vec<u32>,
    id: (u32, u16),
    depth: usize,
) -> (safe: bool)
    requires
        entries@ == document_pages(*doc),
        depth == object_ids(*doc).len(),
    ensures
        safe == chain_ends_within(*doc, id, depth as nat, page_numbers@),
{
    let mut current = id;
    let mut steps: usize = 0;
    loop
        invariant
            0 <= steps <= depth,
            entries@ == document_pages(*doc),
            depth == object_ids(*doc).len(),
            chain_ends_within(*doc, id, depth as nat, page_numbers@) == chain_ends_within(
                *doc,
                current,
                (depth - steps) as nat,
                page_numbers@,
            ),
        decreases depth - steps,
    {
        let parent = match parent_reference(doc, current) {
            None => {
                return true;
            },
            Some(parent) => parent,
        };
        if steps == depth {
            return false;
        }
        if !count_can_be_lowered(doc, entries, page_numbers, parent, depth) {
            return false;
        }
        current = parent;
        steps = steps + 1;
    }
}

/// Tells whether the pages `page_numbers` can be deleted from `doc`.
/// `entries` holds the pages of `doc` and `depth` is the number of its
/// objects.
fn is_deletable(
    doc: &lopdf::Document,
    entries: &Vec<(u32, (u32, u16))>,
    page_numbers: &Vec<u32>,
    depth: usize,
) -> (ok: bool)
    requires
        entries@ == document_pages(*doc),
        depth == object_ids(*doc).len(),
    ensures
        ok == deletable(*doc, page_numbers@),
{
    let mut i: usize = 0;
    while i < entries.len()
        invariant
            0 <= i <= entries@.len(),
            entries@ == document_pages(*doc),
            depth == object_ids(*doc).len(),
            forall|k: int|
                0 <= k < i && is_listed(page_numbers@, (#[trigger] entries@[k]).0)
                    ==> chain_ends_within(*doc, entries@[k].1, depth as nat, page_numbers@),
        decreases entries@.len() - i,
    {
        let (number, id) = entries[i];
        if contains_id(page_numbers, number) && !chain_is_safe(
            doc,
            entries,
            page_numbers,
            id,
            depth,
        ) {
            assert(is_listed(page_numbers@, entries@[i as int].0));
            return false;
        }
        i = i + 1;
    }
    true
}

/// The page numbers of the pages `entries`, in their order.
fn numbers_of(entries: &Vec<(u32, (u32, u16))>) -> (numbers: Vec<u32>)
    ensures
        numbers@ == page_numbers_of(entries@),
{
    let mut numbers: Vec<u32> = Vec::new();
    let mut i: usize = 0;
    while i < entries.len()
        invariant
            0 <= i <= entries@.len(),
            numbers@ == page_numbers_of(entries@.take(i as int)),
        decreases entries@.len() - i,
    {
        numbers.push(entries[i].0);
        i = i + 1;
        assert(numbers@ =~= page_numbers_of(entries@.take(i as int)));
    }
    assert(entries@.take(i as int) =~= entries@);
    numbers
}

/// Page numbers that ascend strictly are all different.
pub proof fn lemma_page_numbers_differ(pages: Seq<(u32, (u32, u16))>)
    requires
        numbers_ascend(pages),
    ensures
        page_numbers_of(pages).no_duplicates(),
{
    let numbers = page_numbers_of(pages);
    assert forall|i: int, j: int|
        0 <= i < numbers.len() && 0 <= j < numbers.len() && i != j implies numbers[i]
        != numbers[j] by {
        if i < j {
            assert(pages[i].0 < pages[j].0);
        } else {
            assert(pages[j].0 < pages[i].0);
        }
    }
}

/// The page numbers of `doc`, in ascending order, or `None` where the pages
/// of `doc` cannot be listed, see [`listable`].
pub fn page_numbers(doc: &lopdf::Document) -> (numbers: Option<Vec<u32>>)
    ensures
        numbers is Some <==> listable(*doc),
        numbers matches Some(found) ==> found@ == page_numbers_of(document_pages(*doc))
            && numbers_ascend(document_pages(*doc)),
{
    let ids = object_keys(doc);
    if !is_listable(doc, &ids) {
        return None;
    }
    let entries = page_entries(doc);
    Some(numbers_of(&entries))
}

/// The number of pages of `doc`, or `None` where the pages of `doc` cannot
/// be listed, see [`listable`].
pub fn page_count(doc: &lopdf::Document) -> (total: Option<usize>)
    ensures
        total is Some <==> listable(*doc),
        total matches Some(count) ==> count == document_pages(*doc).len(),
{
    let ids = object_keys(doc);
    if !is_listable(doc, &ids) {
        return None;
    }
    Some(page_entries(doc).len())
}

/// Reduces `doc` to the pages that `sequence` names: the logical page number
/// `p` stands for the `p`-th page of the document. Every other page is
/// deleted, and then the streams of the document are compressed.
///
/// Fails with `LoadFailure` if the pages of the document cannot be listed,
/// see [`listable`]. Fails with `OutOfRange` if a page number of `sequence`
/// is not between 1 and the number of pages, naming the first such number.
/// Fails with `LoadFailure` if the page tree of the document does not allow
/// the deletion, see [`deletable`]. In each case the document is left as it
/// was. A sequence that names every page from the first to the last
/// succeeds and leaves the pages as they were.
pub fn resolve_and_apply(doc: &mut lopdf::Document, sequence: &Vec<usize>) -> (result: Result<
    (),
    ResolveError,
>)
    ensures
        match result {
            Ok(()) => {
                let numbers = page_numbers_of(document_pages(*old(doc)));
                let to_delete = deletion(numbers, sequence@);
                &&& listable(*old(doc))
                &&& all_in_range(sequence@, numbers.len())
                &&& deletable(*old(doc), to_delete)
                &&& *final(doc) == document_compressed(
                    document_after_deleting(*old(doc), to_delete),
                )
                &&& document_pages(*final(doc)) == document_pages(
                    document_after_deleting(*old(doc), to_delete),
                )
                &&& to_delete.len() == numbers.len() - sequence@.to_set().len()
                &&& to_delete.len() == 0 ==> document_pages(*final(doc)) == document_pages(
                    *old(doc),
                )
            },
            Err(ResolveError::OutOfRange(page, total)) => {
                let numbers = page_numbers_of(document_pages(*old(doc)));
                &&& listable(*old(doc))
                &&& total == numbers.len()
                &&& is_first_out_of_range(sequence@, numbers.len(), page)
                &&& *final(doc) == *old(doc)
            },
            Err(ResolveError::LoadFailure(cause)) => {
                let numbers = page_numbers_of(document_pages(*old(doc)));
                &&& cause@ == MALFORMED_PAGE_TREE@
                &&& !listable(*old(doc)) || (all_in_range(sequence@, numbers.len())
                    && !deletable(*old(doc), deletion(numbers, sequence@)))
                &&& *final(doc) == *old(doc)
            },
            Err(ResolveError::SaveFailure(_)) => false,
        },
        listable(*old(doc)) && sequence@ == full_sequence(document_pages(*old(doc)).len())
            ==> result is Ok && document_pages(*final(doc)) == document_pages(*old(doc)),
{
    let ids = object_keys(doc);
    if !is_listable(doc, &ids) {
        return Err(ResolveError::LoadFailure(MALFORMED_PAGE_TREE.to_owned()));
    }
    let entries = page_entries(doc);
    let numbers = numbers_of(&entries);
    proof {
        assert(numbers@.len() == numbers.len());
        lemma_full_sequence_deletes_nothing(numbers@);
        lemma_page_numbers_differ(entries@);
    }
    let to_delete = match resolve(&numbers, sequence) {
        Ok(to_delete) => to_delete,
        Err(error) => {
            return Err(error);
        },
    };
    proof {
        lemma_deletion_count(numbers@, sequence@);
    }
    if !is_deletable(doc, &entries, &to_delete, ids.len()) {
        return Err(ResolveError::LoadFailure(MALFORMED_PAGE_TREE.to_owned()));
    }
    doc.delete_pages(to_delete.as_slice());
    doc.compress();
    Ok(())
}

} // verus!
