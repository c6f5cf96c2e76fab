use lopdf::{Dictionary, Document, Object, Stream};
use pdf_page_extractor::document::{
    page_count, page_numbers, resolve_and_apply, MALFORMED_PAGE_TREE,
};
use pdf_page_extractor::range::parse_page_range;
use pdf_page_extractor::resolve::ResolveError;

fn name(text: &str) -> Object {
    Object::Name(text.as_bytes().to_vec())
}

/// A document of `count` pages under one page tree node. Page `p` is
/// `100 + p` units wide.
fn document_with_pages(count: usize) -> Document {
    let mut doc = Document::with_version("1.5");
    let tree_id = doc.new_object_id();
    let mut kids = Vec::new();
    for page in 1..=count {
        let text = format!("BT /F1 12 Tf 10 10 Td (page {}) Tj ET", page);
        let content_id = doc.add_object(Stream::new(Dictionary::new(), text.into_bytes()));
        let mut dict = Dictionary::new();
        dict.set("Type", name("Page"));
        dict.set("Parent", Object::Reference(tree_id));
        dict.set("Contents", Object::Reference(content_id));
        dict.set(
            "MediaBox",
            Object::Array(vec![
                Object::Integer(0),
                Object::Integer(0),
                Object::Integer(100 + page as i64),
                Object::Integer(200),
            ]),
        );
        kids.push(Object::Reference(doc.add_object(dict)));
    }
    let mut tree = Dictionary::new();
    tree.set("Type", name("Pages"));
    tree.set("Kids", Object::Array(kids));
    tree.set("Count", Object::Integer(count as i64));
    doc.objects.insert(tree_id, Object::Dictionary(tree));
    let mut catalog = Dictionary::new();
    catalog.set("Type", name("Catalog"));
    catalog.set("Pages", Object::Reference(tree_id));
    let catalog_id = doc.add_object(catalog);
    doc.trailer.set("Root", Object::Reference(catalog_id));
    doc
}

/// Which pages of the document made by `document_with_pages` are in `doc`,
/// in the order of their page numbers.
fn pages_present(doc: &Document) -> Vec<i64> {
    doc.get_pages()
        .values()
        .map(|id| {
            let dict = doc.get_dictionary(*id).unwrap();
            let media_box = dict.get(b"MediaBox").unwrap().as_array().unwrap();
            media_box[2].as_i64().unwrap() - 100
        })
        .collect()
}

fn tree_id(doc: &Document) -> (u32, u16) {
    doc.catalog().unwrap().get(b"Pages").unwrap().as_reference().unwrap()
}

fn tree_count(doc: &Document) -> i64 {
    doc.get_dictionary(tree_id(doc)).unwrap().get(b"Count").unwrap().as_i64().unwrap()
}

fn malformed() -> ResolveError {
    ResolveError::LoadFailure(MALFORMED_PAGE_TREE.to_string())
}

/// Puts the page tree of `doc` under `levels` more nodes, one above the
/// other.
fn nest(doc: &mut Document, levels: usize) {
    let pages = page_count(doc).unwrap() as i64;
    let mut top = tree_id(doc);
    for _ in 0..levels {
        let above = doc.new_object_id();
        let mut node = Dictionary::new();
        node.set("Type", name("Pages"));
        node.set("Kids", Object::Array(vec![Object::Reference(top)]));
        node.set("Count", Object::Integer(pages));
        doc.objects.insert(above, Object::Dictionary(node));
        doc.get_dictionary_mut(top).unwrap().set("Parent", Object::Reference(above));
        top = above;
    }
    let catalog = doc.trailer.get(b"Root").unwrap().as_reference().unwrap();
    doc.get_dictionary_mut(catalog).unwrap().set("Pages", Object::Reference(top));
}

fn saved_and_loaded(doc: &mut Document) -> Document {
    let mut bytes: Vec<u8> = Vec::new();
    doc.save_to(&mut bytes).unwrap();
    Document::load_mem(&bytes).unwrap()
}

#[test]
fn pages_of_a_document() {
    let doc = document_with_pages(5);
    assert_eq!(page_count(&doc), Some(5));
    assert_eq!(page_numbers(&doc), Some(vec![1, 2, 3, 4, 5]));
    assert_eq!(page_count(&Document::new()), Some(0));
    assert_eq!(page_numbers(&Document::new()), Some(vec![]));
}

#[test]
fn extracting_two_pages_of_five() {
    let mut doc = document_with_pages(5);
    let sequence = parse_page_range("2,4").unwrap();
    assert_eq!(resolve_and_apply(&mut doc, &sequence), Ok(()));
    let loaded = saved_and_loaded(&mut doc);
    assert_eq!(loaded.get_pages().len(), 2);
    assert_eq!(pages_present(&loaded), vec![2, 4]);
    assert_eq!(page_numbers(&loaded), Some(vec![1, 2]));
    let ids: Vec<(u32, u16)> = loaded.get_pages().values().copied().collect();
    assert!(ids[0] < ids[1]);
}

#[test]
fn first_and_last_page_of_ten() {
    let mut doc = document_with_pages(10);
    let sequence = parse_page_range("1,10").unwrap();
    assert_eq!(resolve_and_apply(&mut doc, &sequence), Ok(()));
    assert_eq!(pages_present(&doc), vec![1, 10]);
    assert_eq!(tree_count(&doc), 2);
}

#[test]
fn requested_order_and_repeats_do_not_reorder_the_document() {
    let mut doc = document_with_pages(6);
    let sequence = parse_page_range("5,2-3,2").unwrap();
    assert_eq!(resolve_and_apply(&mut doc, &sequence), Ok(()));
    assert_eq!(pages_present(&doc), vec![2, 3, 5]);
}

#[test]
fn selecting_every_page_keeps_the_page_count() {
    let mut doc = document_with_pages(7);
    let sequence = parse_page_range("1-7").unwrap();
    assert_eq!(resolve_and_apply(&mut doc, &sequence), Ok(()));
    assert_eq!(page_count(&doc), Some(7));
    let loaded = saved_and_loaded(&mut doc);
    assert_eq!(page_count(&loaded), Some(7));
    assert_eq!(pages_present(&loaded), vec![1, 2, 3, 4, 5, 6, 7]);
}

#[test]
fn selecting_every_page_twice_changes_nothing_more() {
    let mut doc = document_with_pages(4);
    let sequence = parse_page_range("1-4").unwrap();
    assert_eq!(resolve_and_apply(&mut doc, &sequence), Ok(()));
    let mut once = saved_and_loaded(&mut doc);
    assert_eq!(resolve_and_apply(&mut once, &sequence), Ok(()));
    assert_eq!(pages_present(&once), vec![1, 2, 3, 4]);
}

#[test]
fn page_out_of_range_leaves_the_document_alone() {
    let mut doc = document_with_pages(3);
    assert_eq!(
        resolve_and_apply(&mut doc, &vec![1, 4]),
        Err(ResolveError::OutOfRange(4, 3))
    );
    assert_eq!(resolve_and_apply(&mut doc, &vec![0]), Err(ResolveError::OutOfRange(0, 3)));
    assert_eq!(pages_present(&doc), vec![1, 2, 3]);
    assert_eq!(tree_count(&doc), 3);
}

#[test]
fn every_logical_page_number_resolves() {
    for page in 1..=4usize {
        let mut doc = document_with_pages(4);
        assert_eq!(resolve_and_apply(&mut doc, &vec![page]), Ok(()));
        assert_eq!(pages_present(&doc), vec![page as i64]);
    }
    let mut doc = document_with_pages(4);
    assert_eq!(resolve_and_apply(&mut doc, &vec![5]), Err(ResolveError::OutOfRange(5, 4)));
}

#[test]
fn empty_sequence_deletes_every_page() {
    let mut doc = document_with_pages(3);
    assert_eq!(resolve_and_apply(&mut doc, &vec![]), Ok(()));
    assert_eq!(page_count(&doc), Some(0));
    assert_eq!(tree_count(&doc), 0);
}

#[test]
fn streams_are_compressed() {
    let mut doc = Document::with_version("1.5");
    let id = doc.add_object(Stream::new(Dictionary::new(), vec![b'a'; 4000]));
    assert_eq!(resolve_and_apply(&mut doc, &vec![]), Ok(()));
    let stream = doc.get_object(id).unwrap().as_stream().unwrap();
    assert!(stream.content.len() < 4000);
    assert_eq!(stream.dict.get(b"Filter").unwrap().as_name_str().unwrap(), "FlateDecode");
}

#[test]
fn page_tree_that_is_its_own_parent_is_refused() {
    let mut doc = document_with_pages(3);
    let tree = tree_id(&doc);
    doc.get_dictionary_mut(tree).unwrap().set("Parent", Object::Reference(tree));
    assert_eq!(resolve_and_apply(&mut doc, &vec![1]), Err(malformed()));
    assert_eq!(pages_present(&doc), vec![1, 2, 3]);
    assert_eq!(tree_count(&doc), 3);
}

#[test]
fn page_tree_with_a_cycle_is_accepted_when_nothing_is_deleted() {
    let mut doc = document_with_pages(3);
    let tree = tree_id(&doc);
    doc.get_dictionary_mut(tree).unwrap().set("Parent", Object::Reference(tree));
    assert_eq!(resolve_and_apply(&mut doc, &vec![1, 2, 3]), Ok(()));
    assert_eq!(pages_present(&doc), vec![1, 2, 3]);
}

#[test]
fn count_that_cannot_be_lowered_is_refused() {
    let mut doc = document_with_pages(3);
    let tree = tree_id(&doc);
    doc.get_dictionary_mut(tree).unwrap().set("Count", Object::Integer(i64::MIN + 1));
    assert_eq!(resolve_and_apply(&mut doc, &vec![1]), Err(malformed()));
    assert_eq!(pages_present(&doc), vec![1, 2, 3]);
    assert_eq!(tree_count(&doc), i64::MIN + 1);
}

#[test]
fn count_that_can_just_be_lowered_is_accepted() {
    let mut doc = document_with_pages(3);
    let tree = tree_id(&doc);
    doc.get_dictionary_mut(tree).unwrap().set("Count", Object::Integer(i64::MIN + 2));
    assert_eq!(resolve_and_apply(&mut doc, &vec![1]), Ok(()));
    assert_eq!(pages_present(&doc), vec![1]);
    assert_eq!(tree_count(&doc), i64::MIN);
}

#[test]
fn nested_page_tree() {
    let mut doc = document_with_pages(4);
    let inner = tree_id(&doc);
    nest(&mut doc, 1);
    assert_eq!(page_count(&doc), Some(4));
    assert_eq!(resolve_and_apply(&mut doc, &vec![3]), Ok(()));
    assert_eq!(pages_present(&doc), vec![3]);
    assert_eq!(tree_count(&doc), 1);
    assert_eq!(doc.get_dictionary(inner).unwrap().get(b"Count").unwrap().as_i64().unwrap(), 1);
}

#[test]
fn deep_page_tree_is_accepted() {
    let mut doc = document_with_pages(2);
    nest(&mut doc, 3000);
    assert_eq!(page_count(&doc), Some(2));
    assert_eq!(resolve_and_apply(&mut doc, &vec![2]), Ok(()));
    assert_eq!(pages_present(&doc), vec![2]);
    assert_eq!(tree_count(&doc), 1);
}

#[test]
fn cycle_above_the_page_tree_is_refused() {
    let mut doc = document_with_pages(3);
    let inner = tree_id(&doc);
    nest(&mut doc, 2);
    let top = tree_id(&doc);
    doc.get_dictionary_mut(top).unwrap().set("Parent", Object::Reference(inner));
    assert_eq!(resolve_and_apply(&mut doc, &vec![1, 3]), Err(malformed()));
    assert_eq!(pages_present(&doc), vec![1, 2, 3]);
    assert_eq!(tree_count(&doc), 3);
}

/// A document whose root lists one page and a node that claims `count`
/// pages and has none.
fn document_with_claimed_pages(count: i64) -> Document {
    let mut doc = document_with_pages(1);
    let root = tree_id(&doc);
    let mut node = Dictionary::new();
    node.set("Type", name("Pages"));
    node.set("Parent", Object::Reference(root));
    node.set("Kids", Object::Array(vec![]));
    node.set("Count", Object::Integer(count));
    let node_id = doc.add_object(node);
    let tree = doc.get_dictionary_mut(root).unwrap();
    let mut kids = tree.get(b"Kids").unwrap().as_array().unwrap().clone();
    kids.push(Object::Reference(node_id));
    tree.set("Kids", Object::Array(kids));
    doc
}

#[test]
fn node_that_claims_too_many_pages_is_refused() {
    for count in [4_611_686_018_427_387_904, i64::MAX] {
        let mut doc = document_with_claimed_pages(count);
        assert_eq!(page_count(&doc), None);
        assert_eq!(page_numbers(&doc), None);
        assert_eq!(resolve_and_apply(&mut doc, &vec![1]), Err(malformed()));
        assert_eq!(resolve_and_apply(&mut doc, &vec![]), Err(malformed()));
        assert_eq!(resolve_and_apply(&mut doc, &vec![0]), Err(malformed()));
        assert_eq!(tree_count(&doc), 1);
    }
}

#[test]
fn count_through_a_reference_is_looked_at() {
    let mut doc = document_with_claimed_pages(0);
    let number = doc.add_object(Object::Integer(i64::MAX));
    let root = tree_id(&doc);
    let kids = doc.get_dictionary(root).unwrap().get(b"Kids").unwrap().as_array().unwrap();
    let node = kids[1].as_reference().unwrap();
    doc.get_dictionary_mut(node).unwrap().set("Count", Object::Reference(number));
    assert_eq!(page_count(&doc), None);
    assert_eq!(resolve_and_apply(&mut doc, &vec![1]), Err(malformed()));
}

#[test]
fn node_that_claims_more_pages_than_it_has_is_accepted() {
    for count in [-5, 0, 2, 1_000_000] {
        let mut doc = document_with_claimed_pages(count);
        assert_eq!(page_count(&doc), Some(1));
        assert_eq!(resolve_and_apply(&mut doc, &vec![1]), Ok(()));
        assert_eq!(pages_present(&doc), vec![1]);
    }
}

#[test]
fn count_is_lowered_only_for_the_pages_below_a_node() {
    let mut doc = document_with_pages(3);
    let root = tree_id(&doc);
    let page = *doc.get_pages().get(&1).unwrap();
    let mut node = Dictionary::new();
    node.set("Type", name("Pages"));
    node.set("Parent", Object::Reference(root));
    node.set("Kids", Object::Array(vec![Object::Reference(page)]));
    node.set("Count", Object::Integer(i64::MIN + 1));
    let node_id = doc.add_object(node);
    doc.get_dictionary_mut(page).unwrap().set("Parent", Object::Reference(node_id));
    let tree = doc.get_dictionary_mut(root).unwrap();
    let mut kids = tree.get(b"Kids").unwrap().as_array().unwrap().clone();
    kids[0] = Object::Reference(node_id);
    tree.set("Kids", Object::Array(kids));
    assert_eq!(pages_present(&doc), vec![1, 2, 3]);
    assert_eq!(resolve_and_apply(&mut doc, &vec![3]), Ok(()));
    assert_eq!(pages_present(&doc), vec![3]);
    assert_eq!(
        doc.get_dictionary(node_id).unwrap().get(b"Count").unwrap().as_i64().unwrap(),
        i64::MIN
    );
}

#[test]
fn count_is_checked_on_every_node_above_a_page() {
    let mut doc = document_with_pages(3);
    nest(&mut doc, 2);
    let top = tree_id(&doc);
    doc.get_dictionary_mut(top).unwrap().set("Count", Object::Integer(i64::MIN + 1));
    assert_eq!(resolve_and_apply(&mut doc, &vec![1]), Err(malformed()));
    assert_eq!(resolve_and_apply(&mut doc, &vec![1, 2]), Ok(()));
    assert_eq!(pages_present(&doc), vec![1, 2]);
    assert_eq!(tree_count(&doc), i64::MIN);
}
