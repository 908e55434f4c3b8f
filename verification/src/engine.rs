//! The in-memory database engine: collections of documents, atomic
//! transactions, the executed log, and view indexes kept exactly in
//! step with the documents.
//!
//! Every operation's behaviour is stated against the ghost model in
//! [`crate::model`]; the engine is the local backend of the
//! connection surface.

use vstd::prelude::*;

verus! {

use crate::document::{Document, Header, lemma_content_digest_bound};
use crate::names::{CollectionName, ViewName};
use crate::transaction::Executed;
use crate::error::Error;
use crate::model::{
    ColModel, DocModel, HeaderModel, OpModel, ResultModel, executed_model, cols_wf, col_wf,
    docs_sorted, delete_ops, lemma_spec_delete_batch, find_col, find_doc,
    insert_pos, spec_apply_op, spec_apply_ops, error_matches, ops_model, results_model,
    changes_model, change_of, lemma_find_col, lemma_find_doc, lemma_insert_pos,
    lemma_spec_apply_op_wf, lemma_spec_apply_ops_snoc, lemma_spec_apply_ops_err_extend,
    lemma_spec_apply_ops_single,
};
use crate::transaction::{Operation, OperationResult, OperationKind, Change, Transaction};
use crate::query::{Range, Bound, Sort};

/// Turns a mapper's concrete entries into their ghost form: each
/// pair's key and value bytes as sequences.
pub open spec fn pairs_model(s: Seq<(Vec<u8>, Vec<u8>)>) -> Seq<(Seq<u8>, Seq<u8>)> {
    s.map_values(|p: (Vec<u8>, Vec<u8>)| (p.0@, p.1@))
}

/// The ghost form of a document vector.
pub open spec fn docs_model(docs: Seq<Document>) -> Seq<DocModel> {
    docs.map_values(|d: Document| d.model())
}

/// The map functions of a schema's views.
///
/// A mapper turns a document into the key/value entries the document
/// contributes to a view.  `entries_spec` is the mathematical view
/// function; the executable `entries` must produce exactly it, so a
/// view is a deterministic function of the document alone.
pub trait ViewMapper {
    /// What a document contributes to the view with this index.
    spec fn entries_spec(&self, view: int, doc: DocModel) -> Seq<(Seq<u8>, Seq<u8>)>;

    /// Computes the entries a document contributes to a view.
    fn entries(&self, view: usize, doc: &Document) -> (r: Vec<(Vec<u8>, Vec<u8>)>)
        ensures
            pairs_model(r@) == self.entries_spec(view as int, doc.model()),
    ;
}

/// A view registered with the engine.
pub struct ViewDef {
    /// The view's qualified name.
    pub name: ViewName,
    /// The index of the collection the view indexes.
    pub collection: usize,
    /// Whether two live documents may never share a key in this view.
    pub unique: bool,
    /// Grows when the map function changes; entries are computed from
    /// the live documents, so a new version is served at once.
    pub version: u64,
}

/// One collection's documents, in ascending id order.
pub struct CollectionStore {
    /// The collection's name.
    pub name: CollectionName,
    /// The live documents, ascending by id.
    pub documents: Vec<Document>,
}

impl CollectionStore {
    /// This collection as the model sees it.
    pub open spec fn model(&self) -> ColModel {
        ColModel { name: self.name.folded(), docs: docs_model(self.documents@) }
    }
}

/// The ghost form of the whole store.
pub open spec fn cols_model_of(cols: Seq<CollectionStore>) -> Seq<ColModel> {
    cols.map_values(|c: CollectionStore| c.model())
}

/// No key of `d1` equals a key of `d2` under view `v`.
pub open spec fn keys_disjoint<M: ViewMapper>(m: M, v: int, d1: DocModel, d2: DocModel) -> bool {
    forall|j1: int, j2: int|
        0 <= j1 < m.entries_spec(v, d1).len() && 0 <= j2 < m.entries_spec(v, d2).len() ==> (
        #[trigger] m.entries_spec(v, d1)[j1]).0 != (#[trigger] m.entries_spec(v, d2)[j2]).0
}

/// No two documents of the sequence share a key under view `v`.
pub open spec fn view_unique_ok<M: ViewMapper>(m: M, v: int, docs: Seq<DocModel>) -> bool {
    forall|i1: int, i2: int|
        0 <= i1 < i2 < docs.len() ==> keys_disjoint(m, v, #[trigger] docs[i1], #[trigger] docs[i2])
}

/// Every view marked unique holds distinct keys across the live
/// documents of its collection.
pub open spec fn unique_ok<M: ViewMapper>(m: M, views: Seq<ViewDef>, cols: Seq<ColModel>) -> bool {
    forall|v: int|
        0 <= v < views.len() && (#[trigger] views[v]).unique ==> view_unique_ok(
            m,
            v,
            cols[views[v].collection as int].docs,
        )
}

/// Copies a collection name; the copy reads and folds identically.
fn copy_collection_name(n: &CollectionName) -> (r: CollectionName)
    ensures
        r.authority@ == n.authority@,
        r.name@ == n.name@,
        r.folded() == n.folded(),
{
    CollectionName { authority: n.authority.clone(), name: n.name.clone() }
}

/// Copies a view name; the copy reads and folds identically.
fn copy_view_name(n: &ViewName) -> (r: ViewName)
    ensures
        r.collection.folded() == n.collection.folded(),
        r.name@ == n.name@,
{
    ViewName { collection: copy_collection_name(&n.collection), name: n.name.clone() }
}

/// Copies a header; the copy has the same model.
pub(crate) fn copy_header(h: &Header) -> (r: Header)
    ensures
        r.model() == h.model(),
{
    Header { collection: copy_collection_name(&h.collection), id: h.id, revision: h.revision }
}

/// Copies a document; the copy has the same model.
pub(crate) fn copy_document(d: &Document) -> (r: Document)
    ensures
        r.model() == d.model(),
{
    Document {
        header: copy_header(&d.header),
        contents: vstd::slice::slice_to_vec(d.contents.as_slice()),
    }
}

/// Finds the collection with this name, compared without regard to
/// ASCII case.
fn exec_find_col(cols: &Vec<CollectionStore>, name: &CollectionName) -> (r: Option<usize>)
    ensures
        match r {
            Some(i) => (i as int) < cols@.len() && find_col(cols_model_of(cols@), name.folded())
                == i as int,
            None => find_col(cols_model_of(cols@), name.folded()) == -1,
        },
{
    let n = cols.len();
    for i in 0..n
        invariant
            n == cols@.len(),
            forall|j: int|
                0 <= j < i ==> (#[trigger] cols_model_of(cols@)[j]).name != name.folded(),
    {
        proof {
            assert(cols_model_of(cols@)[i as int] == cols@[i as int].model());
        }
        if cols[i].name.equals_ignore_case(name) {
            proof {
                lemma_find_col(cols_model_of(cols@), name.folded());
            }
            return Some(i);
        }
    }
    proof {
        lemma_find_col(cols_model_of(cols@), name.folded());
    }
    None
}

/// Finds the document with this id.
pub(crate) fn exec_find_doc(docs: &Vec<Document>, id: u64) -> (r: Option<usize>)
    ensures
        match r {
            Some(i) => (i as int) < docs@.len() && find_doc(docs_model(docs@), id) == i as int,
            None => find_doc(docs_model(docs@), id) == -1,
        },
{
    let n = docs.len();
    for i in 0..n
        invariant
            n == docs@.len(),
            forall|j: int| 0 <= j < i ==> (#[trigger] docs_model(docs@)[j]).header.id != id,
    {
        proof {
            assert(docs_model(docs@)[i as int] == docs@[i as int].model());
        }
        if docs[i].header.id == id {
            proof {
                lemma_find_doc(docs_model(docs@), id);
            }
            return Some(i);
        }
    }
    proof {
        lemma_find_doc(docs_model(docs@), id);
    }
    None
}

/// Finds where a new id belongs in an ascending document vector.
fn exec_insert_pos(docs: &Vec<Document>, id: u64) -> (r: usize)
    requires
        docs_sorted(docs_model(docs@)),
    ensures
        r as int == insert_pos(docs_model(docs@), id),
        r <= docs@.len(),
{
    let n = docs.len();
    for i in 0..n
        invariant
            n == docs@.len(),
            docs_sorted(docs_model(docs@)),
            forall|j: int| 0 <= j < i ==> (#[trigger] docs_model(docs@)[j]).header.id < id,
    {
        proof {
            assert(docs_model(docs@)[i as int] == docs@[i as int].model());
        }
        if docs[i].header.id >= id {
            proof {
                lemma_insert_pos(docs_model(docs@), id);
                let p = insert_pos(docs_model(docs@), id);
                if p < i as int {
                    assert(docs_model(docs@)[p].header.id >= id);
                }
                if p > i as int {
                    assert(docs_model(docs@)[i as int].header.id < id);
                }
            }
            return i;
        }
    }
    proof {
        lemma_insert_pos(docs_model(docs@), id);
        let p = insert_pos(docs_model(docs@), id);
        if p < n as int {
            assert(docs_model(docs@)[p].header.id >= id);
        }
    }
    n
}

/// Compares two byte strings for equality.
pub(crate) fn bytes_equal(a: &Vec<u8>, b: &Vec<u8>) -> (r: bool)
    ensures
        r == (a@ == b@),
{
    let n = a.len();
    if n != b.len() {
        return false;
    }
    for i in 0..n
        invariant
            n == a@.len() == b@.len(),
            forall|j: int| 0 <= j < i ==> a@[j] == b@[j],
    {
        if a[i] != b[i] {
            return false;
        }
    }
    proof {
        assert(a@ =~= b@);
    }
    true
}

/// Applies one insert to the store, exactly as the model's
/// `spec_apply_op` describes it.
fn apply_insert(
    cols: &mut Vec<CollectionStore>,
    collection: &CollectionName,
    id: Option<u64>,
    contents: &Vec<u8>,
) -> (r: Result<Header, Error>)
    requires
        cols_wf(cols_model_of(old(cols)@)),
    ensures
        ({
            let op = (OpModel::Insert { collection: collection.folded(), id, contents: contents@ });
            match r {
                Ok(h) => spec_apply_op(cols_model_of(old(cols)@), op) matches Ok(pair)
                    && cols_model_of(final(cols)@) == pair.0 && pair.1 == ResultModel::Updated(
                    h.model(),
                ),
                Err(e) => final(cols)@ == old(cols)@ && (spec_apply_op(
                    cols_model_of(old(cols)@),
                    op,
                ) matches Err(f) && error_matches(e, f)),
            }
        }),
{
    let ci = match exec_find_col(cols, collection) {
        Some(ci) => ci,
        None => {
            return Err(Error::CollectionNotFound);
        },
    };
    proof {
        assert(cols_model_of(cols@)[ci as int] == cols@[ci as int].model());
        assert(col_wf(cols_model_of(cols@)[ci as int]));
    }
    let chosen: u64 = match id {
        Some(v) => v,
        None => {
            let len = cols[ci].documents.len();
            if len == 0 {
                1
            } else {
                let last_id = cols[ci].documents[len - 1].header.id;
                proof {
                    assert(docs_model(cols@[ci as int].documents@).last() == cols@[ci as int].documents@.last().model());
                }
                if last_id == u64::MAX {
                    return Err(Error::Database("no id is left in the collection".to_owned()));
                }
                last_id + 1
            }
        },
    };
    if let Some(_) = exec_find_doc(&cols[ci].documents, chosen) {
        return Err(Error::DocumentConflict(copy_collection_name(&cols[ci].name), chosen));
    }
    let pos = exec_insert_pos(&cols[ci].documents, chosen);
    let cname = copy_collection_name(&cols[ci].name);
    let contents_copy = vstd::slice::slice_to_vec(contents.as_slice());
    let doc = Document::new(cname, chosen, contents_copy);
    let header_out = copy_header(&doc.header);
    let ghost old_cols = cols@;
    let ghost doc_m = doc.model();
    let col = &mut cols[ci];
    col.documents.insert(pos, doc);
    proof {
        lemma_content_digest_bound(contents@);
        let op = (OpModel::Insert { collection: collection.folded(), id, contents: contents@ });
        let oldm = cols_model_of(old_cols);
        let colm = oldm[ci as int];
        let pair = spec_apply_op(oldm, op)->Ok_0;
        assert(docs_model(cols@[ci as int].documents@) =~= colm.docs.insert(pos as int, doc_m));
        assert(cols_model_of(cols@) =~= pair.0) by {
            assert(forall|k: int|
                0 <= k < cols@.len() && k != ci as int ==> cols@[k] == #[trigger] old_cols[k]);
            assert(cols_model_of(cols@)[ci as int] == cols@[ci as int].model());
        }
        assert(pair.1 == ResultModel::Updated(header_out.model()));
    }
    Ok(header_out)
}

/// Applies one update to the store, exactly as the model's
/// `spec_apply_op` describes it.
fn apply_update(cols: &mut Vec<CollectionStore>, header: &Header, contents: &Vec<u8>) -> (r:
    Result<Header, Error>)
    requires
        cols_wf(cols_model_of(old(cols)@)),
    ensures
        ({
            let op = (OpModel::Update { header: header.model(), contents: contents@ });
            match r {
                Ok(h) => spec_apply_op(cols_model_of(old(cols)@), op) matches Ok(pair)
                    && cols_model_of(final(cols)@) == pair.0 && pair.1 == ResultModel::Updated(
                    h.model(),
                ),
                Err(e) => final(cols)@ == old(cols)@ && (spec_apply_op(
                    cols_model_of(old(cols)@),
                    op,
                ) matches Err(f) && error_matches(e, f)),
            }
        }),
{
    let ci = match exec_find_col(cols, &header.collection) {
        Some(ci) => ci,
        None => {
            return Err(Error::CollectionNotFound);
        },
    };
    proof {
        assert(cols_model_of(cols@)[ci as int] == cols@[ci as int].model());
        assert(col_wf(cols_model_of(cols@)[ci as int]));
    }
    let di = match exec_find_doc(&cols[ci].documents, header.id) {
        Some(di) => di,
        None => {
            return Err(
                Error::DocumentNotFound(copy_collection_name(&cols[ci].name), header.id),
            );
        },
    };
    proof {
        assert(docs_model(cols@[ci as int].documents@)[di as int] == cols@[ci as int].documents@[di as int].model());
    }
    let stored_revision = cols[ci].documents[di].header.revision;
    if !(stored_revision == header.revision) {
        return Err(Error::DocumentConflict(copy_collection_name(&cols[ci].name), header.id));
    }
    if stored_revision.sequence == u32::MAX {
        return Err(
            Error::Database("the revision sequence cannot grow further".to_owned()),
        );
    }
    let cname = copy_collection_name(&cols[ci].name);
    let contents_copy = vstd::slice::slice_to_vec(contents.as_slice());
    let new_revision = stored_revision.next(contents.as_slice());
    let doc = Document {
        header: Header { collection: cname, id: header.id, revision: new_revision },
        contents: contents_copy,
    };
    let header_out = copy_header(&doc.header);
    let ghost old_cols = cols@;
    let ghost doc_m = doc.model();
    let col = &mut cols[ci];
    let _removed = col.documents.remove(di);
    col.documents.insert(di, doc);
    proof {
        lemma_content_digest_bound(contents@);
        let op = (OpModel::Update { header: header.model(), contents: contents@ });
        let oldm = cols_model_of(old_cols);
        let colm = oldm[ci as int];
        let pair = spec_apply_op(oldm, op)->Ok_0;
        assert(docs_model(cols@[ci as int].documents@) =~= colm.docs.update(di as int, doc_m));
        assert(cols_model_of(cols@) =~= pair.0) by {
            assert(forall|k: int|
                0 <= k < cols@.len() && k != ci as int ==> cols@[k] == #[trigger] old_cols[k]);
            assert(cols_model_of(cols@)[ci as int] == cols@[ci as int].model());
        }
        assert(pair.1 == ResultModel::Updated(header_out.model()));
    }
    Ok(header_out)
}

/// Applies one delete to the store, exactly as the model's
/// `spec_apply_op` describes it.
fn apply_delete(cols: &mut Vec<CollectionStore>, header: &Header) -> (r: Result<
    (CollectionName, u64),
    Error,
>)
    requires
        cols_wf(cols_model_of(old(cols)@)),
    ensures
        ({
            let op = (OpModel::Delete { header: header.model() });
            match r {
                Ok(d) => spec_apply_op(cols_model_of(old(cols)@), op) matches Ok(pair)
                    && cols_model_of(final(cols)@) == pair.0 && pair.1 == ResultModel::Deleted(
                    d.0.folded(),
                    d.1,
                ),
                Err(e) => final(cols)@ == old(cols)@ && (spec_apply_op(
                    cols_model_of(old(cols)@),
                    op,
                ) matches Err(f) && error_matches(e, f)),
            }
        }),
{
    let ci = match exec_find_col(cols, &header.collection) {
        Some(ci) => ci,
        None => {
            return Err(Error::CollectionNotFound);
        },
    };
    proof {
        assert(cols_model_of(cols@)[ci as int] == cols@[ci as int].model());
    }
    let di = match exec_find_doc(&cols[ci].documents, header.id) {
        Some(di) => di,
        None => {
            return Err(
                Error::DocumentNotFound(copy_collection_name(&cols[ci].name), header.id),
            );
        },
    };
    proof {
        assert(docs_model(cols@[ci as int].documents@)[di as int] == cols@[ci as int].documents@[di as int].model());
    }
    let stored_revision = cols[ci].documents[di].header.revision;
    if !(stored_revision == header.revision) {
        return Err(Error::DocumentConflict(copy_collection_name(&cols[ci].name), header.id));
    }
    let cname = copy_collection_name(&cols[ci].name);
    let ghost old_cols = cols@;
    let col = &mut cols[ci];
    let _removed = col.documents.remove(di);
    proof {
        let op = (OpModel::Delete { header: header.model() });
        let oldm = cols_model_of(old_cols);
        let colm = oldm[ci as int];
        let pair = spec_apply_op(oldm, op)->Ok_0;
        assert(docs_model(cols@[ci as int].documents@) =~= colm.docs.remove(di as int));
        assert(cols_model_of(cols@) =~= pair.0) by {
            assert(forall|k: int|
                0 <= k < cols@.len() && k != ci as int ==> cols@[k] == #[trigger] old_cols[k]);
            assert(cols_model_of(cols@)[ci as int] == cols@[ci as int].model());
        }
        assert(pair.1 == ResultModel::Deleted(cname.folded(), header.id));
    }
    Ok((cname, header.id))
}

/// Copies the whole store; the copy has the same model.
fn copy_collections(cols: &Vec<CollectionStore>) -> (r: Vec<CollectionStore>)
    ensures
        cols_model_of(r@) == cols_model_of(cols@),
{
    let mut out: Vec<CollectionStore> = Vec::new();
    let n = cols.len();
    for i in 0..n
        invariant
            n == cols@.len(),
            out@.len() == i,
            forall|j: int| 0 <= j < i ==> (#[trigger] out@[j]).model() == cols@[j].model(),
    {
        let mut documents: Vec<Document> = Vec::new();
        let m = cols[i].documents.len();
        for k in 0..m
            invariant
                n == cols@.len(),
                i < n,
                m == cols@[i as int].documents@.len(),
                documents@.len() == k,
                forall|j: int|
                    0 <= j < k ==> (#[trigger] documents@[j]).model() == cols@[i as int].documents@[j].model(),
        {
            let copied = copy_document(&cols[i].documents[k]);
            documents.push(copied);
        }
        let store = CollectionStore { name: copy_collection_name(&cols[i].name), documents };
        proof {
            assert(docs_model(store.documents@) =~= docs_model(cols@[i as int].documents@));
            assert(store.model() == cols@[i as int].model());
        }
        out.push(store);
    }
    proof {
        assert(cols_model_of(out@) =~= cols_model_of(cols@));
    }
    out
}

/// Checks that no two documents of a collection share a key under one
/// view; a violation names the earlier document as existing and the
/// later as conflicting.
#[verifier::loop_isolation(false)]
fn check_view_unique<M: ViewMapper>(
    mapper: &M,
    view: usize,
    name: &ViewName,
    docs: &Vec<Document>,
) -> (r: Result<(), Error>)
    ensures
        match r {
            Ok(_) => view_unique_ok(*mapper, view as int, docs_model(docs@)),
            Err(e) => !view_unique_ok(*mapper, view as int, docs_model(docs@)) && (e matches Error::UniqueKeyViolation {
                view: vn,
                conflicting_document_id,
                existing_document_id,
            } && vn.collection.folded() == name.collection.folded() && vn.name@ == name.name@
                && (exists|i1: int, i2: int|
                0 <= i1 < i2 < docs@.len() && (#[trigger] docs@[i1]).header.id
                    == existing_document_id && (#[trigger] docs@[i2]).header.id
                    == conflicting_document_id && !keys_disjoint(
                    *mapper,
                    view as int,
                    docs_model(docs@)[i1],
                    docs_model(docs@)[i2],
                ))),
        },
{
    let n = docs.len();
    for i2 in 0..n
        invariant
            forall|a: int, b: int|
                0 <= a < b < i2 ==> keys_disjoint(
                    *mapper,
                    view as int,
                    #[trigger] docs_model(docs@)[a],
                    #[trigger] docs_model(docs@)[b],
                ),
    {
        let entries2 = mapper.entries(view, &docs[i2]);
        proof {
            assert(docs_model(docs@)[i2 as int] == docs@[i2 as int].model());
        }
        for i1 in 0..i2
            invariant
                pairs_model(entries2@) == mapper.entries_spec(
                    view as int,
                    docs_model(docs@)[i2 as int],
                ),
                forall|a: int|
                    0 <= a < i1 ==> keys_disjoint(
                        *mapper,
                        view as int,
                        #[trigger] docs_model(docs@)[a],
                        docs_model(docs@)[i2 as int],
                    ),
        {
            let entries1 = mapper.entries(view, &docs[i1]);
            proof {
                assert(docs_model(docs@)[i1 as int] == docs@[i1 as int].model());
            }
            let len1 = entries1.len();
            let len2 = entries2.len();
            for j1 in 0..len1
                invariant
                    len1 == entries1@.len(),
                    len2 == entries2@.len(),
                    pairs_model(entries1@) == mapper.entries_spec(
                        view as int,
                        docs_model(docs@)[i1 as int],
                    ),
                    forall|x: int, y: int|
                        0 <= x < j1 && 0 <= y < len2 ==> (#[trigger] mapper.entries_spec(
                            view as int,
                            docs_model(docs@)[i1 as int],
                        )[x]).0 != (#[trigger] mapper.entries_spec(
                            view as int,
                            docs_model(docs@)[i2 as int],
                        )[y]).0,
            {
                for j2 in 0..len2
                    invariant
                        j1 < len1,
                        forall|y: int|
                            0 <= y < j2 ==> (#[trigger] mapper.entries_spec(
                                view as int,
                                docs_model(docs@)[i1 as int],
                            )[j1 as int]).0 != (#[trigger] mapper.entries_spec(
                                view as int,
                                docs_model(docs@)[i2 as int],
                            )[y]).0,
                {
                    proof {
                        assert(pairs_model(entries1@)[j1 as int] == (entries1@[j1 as int].0@, entries1@[j1 as int].1@));
                        assert(pairs_model(entries2@)[j2 as int] == (entries2@[j2 as int].0@, entries2@[j2 as int].1@));
                    }
                    if bytes_equal(&entries1[j1].0, &entries2[j2].0) {
                        proof {
                            let dm1 = docs_model(docs@)[i1 as int];
                            let dm2 = docs_model(docs@)[i2 as int];
                            assert(mapper.entries_spec(view as int, dm1)[j1 as int].0
                                == mapper.entries_spec(view as int, dm2)[j2 as int].0);
                            assert(!keys_disjoint(*mapper, view as int, dm1, dm2));
                        }
                        return Err(
                            Error::UniqueKeyViolation {
                                view: copy_view_name(name),
                                conflicting_document_id: docs[i2].header.id,
                                existing_document_id: docs[i1].header.id,
                            },
                        );
                    }
                }
            }
            proof {
                assert(keys_disjoint(
                    *mapper,
                    view as int,
                    docs_model(docs@)[i1 as int],
                    docs_model(docs@)[i2 as int],
                ));
            }
        }
    }
    Ok(())
}

/// Applies one operation and reports its result and its line in the
/// executed record.
fn apply_one_op(cols: &mut Vec<CollectionStore>, op: &Operation) -> (r: Result<
    (OperationResult, Change),
    Error,
>)
    requires
        cols_wf(cols_model_of(old(cols)@)),
    ensures
        match r {
            Ok(t) => spec_apply_op(cols_model_of(old(cols)@), op.model()) matches Ok(pair)
                && cols_model_of(final(cols)@) == pair.0 && t.0.model() == pair.1 && t.1.model()
                == change_of(op.model(), t.0.model()),
            Err(e) => final(cols)@ == old(cols)@ && (spec_apply_op(
                cols_model_of(old(cols)@),
                op.model(),
            ) matches Err(f) && error_matches(e, f)),
        },
{
    match op {
        Operation::Insert { collection, id, contents } => {
            match apply_insert(cols, collection, *id, contents) {
                Ok(h) => {
                    let change = Change {
                        collection: copy_collection_name(&h.collection),
                        id: h.id,
                        kind: OperationKind::Insert,
                        revision: Some(h.revision),
                    };
                    Ok((OperationResult::DocumentUpdated { header: h }, change))
                },
                Err(e) => Err(e),
            }
        },
        Operation::Update { header, contents } => {
            match apply_update(cols, header, contents) {
                Ok(h) => {
                    let change = Change {
                        collection: copy_collection_name(&h.collection),
                        id: h.id,
                        kind: OperationKind::Update,
                        revision: Some(h.revision),
                    };
                    Ok((OperationResult::DocumentUpdated { header: h }, change))
                },
                Err(e) => Err(e),
            }
        },
        Operation::Delete { header } => {
            match apply_delete(cols, header) {
                Ok(deleted) => {
                    let change = Change {
                        collection: copy_collection_name(&deleted.0),
                        id: deleted.1,
                        kind: OperationKind::Delete,
                        revision: None,
                    };
                    Ok((OperationResult::DocumentDeleted { collection: deleted.0, id: deleted.1 }, change))
                },
                Err(e) => Err(e),
            }
        },
    }
}

/// Applies a batch of operations to a copy of the store, leaving the
/// store itself untouched; the first refusal refuses the batch.
#[verifier::rlimit(100)]
#[verifier::spinoff_prover]
#[verifier::loop_isolation(false)]
fn apply_ops(cols0: &Vec<CollectionStore>, operations: &Vec<Operation>) -> (r: Result<
    (Vec<CollectionStore>, Vec<OperationResult>, Vec<Change>),
    Error,
>)
    requires
        cols_wf(cols_model_of(cols0@)),
    ensures
        match r {
            Ok(t) => spec_apply_ops(cols_model_of(cols0@), ops_model(operations@)) matches Ok(
                pair,
            ) && cols_model_of(t.0@) == pair.0 && results_model(t.1@) == pair.1 && cols_wf(
                cols_model_of(t.0@),
            ) && t.0@.len() == cols0@.len() && (forall|k: int|
                0 <= k < cols0@.len() ==> (#[trigger] cols_model_of(t.0@)[k]).name
                    == cols_model_of(cols0@)[k].name) && t.2@.len() == operations@.len() && (
            forall|k: int|
                0 <= k < operations@.len() ==> changes_model(t.2@)[k] == change_of(
                    ops_model(operations@)[k],
                    #[trigger] results_model(t.1@)[k],
                )),
            Err(e) => spec_apply_ops(cols_model_of(cols0@), ops_model(operations@)) matches Err(
                f,
            ) && error_matches(e, f),
        },
{
    let ghost m0 = cols_model_of(cols0@);
    let ghost opsm = ops_model(operations@);
    let mut cols = copy_collections(cols0);
    let mut results: Vec<OperationResult> = Vec::new();
    let mut changes: Vec<Change> = Vec::new();
    let n = operations.len();
    for i in 0..n
        invariant
            spec_apply_ops(m0, opsm.take(i as int)) matches Ok(pair) && cols_model_of(cols@)
                == pair.0 && results_model(results@) == pair.1,
            results@.len() == i,
            changes@.len() == i,
            forall|k: int|
                0 <= k < i ==> changes_model(changes@)[k] == change_of(
                    opsm[k],
                    #[trigger] results_model(results@)[k],
                ),
            cols_wf(cols_model_of(cols@)),
            cols@.len() == cols0@.len(),
            forall|k: int|
                0 <= k < cols@.len() ==> (#[trigger] cols_model_of(cols@)[k]).name
                    == cols_model_of(cols0@)[k].name,
    {
        let ghost pre = cols_model_of(cols@);
        let ghost prev_results = results@;
        let ghost prev_changes = changes@;
        proof {
            assert(opsm[i as int] == operations@[i as int].model());
            assert(opsm.take(i as int).push(opsm[i as int]) =~= opsm.take(i + 1));
        }
        match apply_one_op(&mut cols, &operations[i]) {
            Ok(t) => {
                let (result, change) = t;
                changes.push(change);
                results.push(result);
            },
            Err(e) => {
                proof {
                    lemma_spec_apply_ops_snoc(m0, opsm, i as int);
                    lemma_spec_apply_ops_err_extend(m0, opsm, i + 1);
                }
                return Err(e);
            },
        }
        proof {
            lemma_spec_apply_ops_snoc(m0, opsm, i as int);
            lemma_spec_apply_op_wf(pre, opsm[i as int]);
            assert(results_model(results@) =~= results_model(prev_results).push(
                results@.last().model(),
            ));
            assert(forall|k: int|
                0 <= k < i ==> results_model(results@)[k] == #[trigger] results_model(
                    prev_results,
                )[k]);
            assert(forall|k: int|
                0 <= k < i ==> changes_model(changes@)[k] == #[trigger] changes_model(
                    prev_changes,
                )[k]);
            assert(changes_model(changes@)[i as int] == changes@.last().model());
            assert(results_model(results@)[i as int] == results@.last().model());
        }
    }
    proof {
        assert(opsm.take(n as int) =~= opsm);
    }
    Ok((cols, results, changes))
}

/// Sweeps every unique view for a shared key.
#[verifier::loop_isolation(false)]
fn check_all_unique<M: ViewMapper>(
    mapper: &M,
    views: &Vec<ViewDef>,
    cols: &Vec<CollectionStore>,
) -> (r: Result<(), Error>)
    requires
        forall|v: int| 0 <= v < views@.len() ==> (#[trigger] views@[v]).collection < cols@.len(),
    ensures
        match r {
            Ok(_) => unique_ok(*mapper, views@, cols_model_of(cols@)),
            Err(e) => !unique_ok(*mapper, views@, cols_model_of(cols@))
                && e is UniqueKeyViolation,
        },
{
    let view_count = views.len();
    for v in 0..view_count
        invariant
            forall|w: int|
                0 <= w < v && (#[trigger] views@[w]).unique ==> view_unique_ok(
                    *mapper,
                    w,
                    cols_model_of(cols@)[views@[w].collection as int].docs,
                ),
    {
        if views[v].unique {
            let ci = views[v].collection;
            proof {
                assert(cols_model_of(cols@)[ci as int] == cols@[ci as int].model());
            }
            match check_view_unique(mapper, v, &views[v].name, &cols[ci].documents) {
                Ok(_) => {
                },
                Err(e) => {
                    proof {
                        assert(!unique_ok(*mapper, views@, cols_model_of(cols@)));
                    }
                    return Err(e);
                },
            }
        }
    }
    Ok(())
}

/// Copies a change line; the copy has the same model.
fn copy_change(c: &Change) -> (r: Change)
    ensures
        r.model() == c.model(),
{
    Change {
        collection: copy_collection_name(&c.collection),
        id: c.id,
        kind: c.kind,
        revision: c.revision,
    }
}

/// Copies an executed record; the copy has the same model.
fn copy_executed(e: &Executed) -> (r: Executed)
    ensures
        r.model() == e.model(),
{
    let mut changes: Vec<Change> = Vec::new();
    let n = e.changes.len();
    for i in 0..n
        invariant
            n == e.changes@.len(),
            changes@.len() == i,
            forall|j: int|
                0 <= j < i ==> (#[trigger] changes@[j]).model() == e.changes@[j].model(),
    {
        let copied = copy_change(&e.changes[i]);
        changes.push(copied);
    }
    let r = Executed {
        transaction_id: e.transaction_id,
        timestamp_millis: e.timestamp_millis,
        changes,
    };
    proof {
        assert(changes_model(r.changes@) =~= changes_model(e.changes@));
    }
    r
}

/// Whether an id falls inside a range of ids.
pub open spec fn id_in_range(id: u64, range: Range<u64>) -> bool {
    (match range.start {
        Bound::Unbounded => true,
        Bound::Included(s) => id >= s,
        Bound::Excluded(s) => id > s,
    }) && (match range.end {
        Bound::Unbounded => true,
        Bound::Included(e) => id <= e,
        Bound::Excluded(e) => id < e,
    })
}

/// The documents of a sequence whose ids fall in the range, in order.
pub open spec fn matching_docs(docs: Seq<DocModel>, range: Range<u64>) -> Seq<DocModel>
    decreases docs.len(),
{
    if docs.len() == 0 {
        Seq::empty()
    } else if id_in_range(docs.last().header.id, range) {
        matching_docs(docs.drop_last(), range).push(docs.last())
    } else {
        matching_docs(docs.drop_last(), range)
    }
}

/// The documents found for each requested id, in request order;
/// missing ids contribute nothing.
pub open spec fn gathered_docs(docs: Seq<DocModel>, ids: Seq<u64>) -> Seq<DocModel>
    decreases ids.len(),
{
    if ids.len() == 0 {
        Seq::empty()
    } else {
        let rest = gathered_docs(docs, ids.drop_last());
        if find_doc(docs, ids.last()) >= 0 {
            rest.push(docs[find_doc(docs, ids.last())])
        } else {
            rest
        }
    }
}

fn id_matches(id: u64, range: &Range<u64>) -> (r: bool)
    ensures
        r == id_in_range(id, *range),
{
    (match range.start {
        Bound::Unbounded => true,
        Bound::Included(s) => id >= s,
        Bound::Excluded(s) => id > s,
    }) && (match range.end {
        Bound::Unbounded => true,
        Bound::Included(e) => id <= e,
        Bound::Excluded(e) => id < e,
    })
}


/// Removing a document never introduces a shared key: every pair of
/// remaining documents was a pair before.
pub proof fn lemma_delete_op_preserves_unique<M: ViewMapper>(
    m: M,
    views: Seq<ViewDef>,
    cols: Seq<ColModel>,
    header: HeaderModel,
)
    requires
        cols_wf(cols),
        unique_ok(m, views, cols),
        forall|v: int| 0 <= v < views.len() ==> (#[trigger] views[v]).collection < cols.len(),
        spec_apply_op(cols, OpModel::Delete { header }) is Ok,
    ensures
        ({
            let (cols2, _) = spec_apply_op(cols, (OpModel::Delete { header }))->Ok_0;
            unique_ok(m, views, cols2)
        }),
{
    let op = (OpModel::Delete { header });
    let (cols2, _) = spec_apply_op(cols, op)->Ok_0;
    let ci = find_col(cols, header.collection);
    lemma_find_col(cols, header.collection);
    let docs = cols[ci].docs;
    let di = find_doc(docs, header.id);
    lemma_find_doc(docs, header.id);
    let docs2 = docs.remove(di);
    assert forall|v: int|
        0 <= v < views.len() && (#[trigger] views[v]).unique implies view_unique_ok(
        m,
        v,
        cols2[views[v].collection as int].docs,
    ) by {
        let cw = views[v].collection as int;
        assert(view_unique_ok(m, v, cols[cw].docs));
        if cw == ci {
            assert forall|i1: int, i2: int|
                0 <= i1 < i2 < docs2.len() implies keys_disjoint(
                m,
                v,
                #[trigger] docs2[i1],
                #[trigger] docs2[i2],
            ) by {
                let o1 = if i1 < di {
                    i1
                } else {
                    i1 + 1
                };
                let o2 = if i2 < di {
                    i2
                } else {
                    i2 + 1
                };
                assert(docs2[i1] == docs[o1]);
                assert(docs2[i2] == docs[o2]);
                assert(keys_disjoint(m, v, docs[o1], docs[o2]));
            }
            assert(cols2[cw].docs == docs2);
        } else {
            assert(cols2[cw] == cols[cw]);
        }
    }
}

/// A batch made of deletes alone keeps every unique view's keys
/// distinct.
pub proof fn lemma_delete_ops_preserve_unique<M: ViewMapper>(
    m: M,
    views: Seq<ViewDef>,
    cols: Seq<ColModel>,
    goners: Seq<DocModel>,
)
    requires
        cols_wf(cols),
        unique_ok(m, views, cols),
        forall|v: int| 0 <= v < views.len() ==> (#[trigger] views[v]).collection < cols.len(),
        spec_apply_ops(cols, delete_ops(goners)) is Ok,
    ensures
        ({
            let (cols2, _) = spec_apply_ops(cols, delete_ops(goners))->Ok_0;
            unique_ok(m, views, cols2)
        }),
    decreases goners.len(),
{
    if goners.len() == 0 {
        assert(delete_ops(goners) =~= Seq::<OpModel>::empty());
    } else {
        let ops = delete_ops(goners);
        let op = (OpModel::Delete { header: goners[0].header });
        assert(ops[0] == op);
        let (cols1, _) = spec_apply_op(cols, op)->Ok_0;
        lemma_delete_op_preserves_unique(m, views, cols, goners[0].header);
        lemma_spec_apply_op_wf(cols, op);
        assert(ops.drop_first() =~= delete_ops(goners.drop_first()));
        lemma_delete_ops_preserve_unique(m, views, cols1, goners.drop_first());
    }
}

/// A database: its view map functions, its registered views, its
/// collections, and the append-only record of committed transactions.
pub struct Db<M> {
    /// The map functions of the schema's views.
    pub mapper: M,
    /// The registered views.
    pub views: Vec<ViewDef>,
    /// The collections and their documents.
    pub collections: Vec<CollectionStore>,
    /// The committed transactions, in commit order.
    pub executed: Vec<Executed>,
}

impl<M: ViewMapper> Db<M> {
    /// This store as the model sees it.
    pub open spec fn cols_model(&self) -> Seq<ColModel> {
        cols_model_of(self.collections@)
    }

    /// The engine's invariant: coherent collections, views that point
    /// at real collections, a gap-free executed log whose ids start at
    /// one, and unique views that hold distinct keys.
    pub open spec fn inv(&self) -> bool {
        &&& cols_wf(self.cols_model())
        &&& forall|v: int|
            0 <= v < self.views@.len() ==> (#[trigger] self.views@[v]).collection
                < self.collections@.len()
        &&& forall|i: int|
            0 <= i < self.executed@.len() ==> (#[trigger] self.executed@[i]).transaction_id == i
                + 1
        &&& unique_ok(self.mapper, self.views@, self.cols_model())
    }

    /// An empty database using the given view map functions.
    pub fn new(mapper: M) -> (r: Db<M>)
        ensures
            r.inv(),
            r.views@.len() == 0,
            r.collections@.len() == 0,
            r.executed@.len() == 0,
            r.mapper == mapper,
    {
        let r = Db { mapper, views: Vec::new(), collections: Vec::new(), executed: Vec::new() };
        proof {
            assert(r.cols_model() =~= Seq::<ColModel>::empty());
        }
        r
    }

    /// Registers a collection.  Names are unique without regard to
    /// ASCII case; a second spelling of a registered name is refused.
    pub fn define_collection(&mut self, name: CollectionName) -> (r: Result<usize, Error>)
        requires
            old(self).inv(),
            name.wf(),
        ensures
            final(self).inv(),
            final(self).views == old(self).views,
            final(self).executed == old(self).executed,
            final(self).mapper == old(self).mapper,
            match r {
                Ok(i) => (forall|j: int|
                    0 <= j < old(self).cols_model().len() ==> (#[trigger] old(
                        self,
                    ).cols_model()[j]).name != name.folded()) && i == old(
                    self,
                ).collections@.len() && final(self).cols_model() == old(self).cols_model().push(
                    (ColModel { name: name.folded(), docs: Seq::empty() }),
                ),
                Err(e) => *final(self) == *old(self) && e is CollectionAlreadyDefined && find_col(
                    old(self).cols_model(),
                    name.folded(),
                ) >= 0,
            },
    {
        let n = self.collections.len();
        for i in 0..n
            invariant
                *self == *old(self),
                old(self).inv(),
                n == self.collections@.len(),
                forall|j: int|
                    0 <= j < i ==> (#[trigger] cols_model_of(self.collections@)[j]).name
                        != name.folded(),
        {
            if self.collections[i].name.equals_ignore_case(&name) {
                proof {
                    lemma_find_col(self.cols_model(), name.folded());
                    assert(self.cols_model()[i as int].name == name.folded());
                }
                return Err(Error::CollectionAlreadyDefined);
            }
        }
        let index = self.collections.len();
        self.collections.push(CollectionStore { name, documents: Vec::new() });
        proof {
            assert(self.cols_model() =~= old(self).cols_model().push(
                (ColModel { name: name.folded(), docs: Seq::empty() }),
            )) by {
                assert(docs_model(Seq::<Document>::empty()) =~= Seq::<DocModel>::empty());
            }
            assert(cols_wf(self.cols_model()));
            assert(unique_ok(self.mapper, self.views@, self.cols_model())) by {
                assert(forall|v: int|
                    0 <= v < self.views@.len() && (#[trigger] self.views@[v]).unique
                        ==> self.cols_model()[self.views@[v].collection as int].docs == old(
                        self,
                    ).cols_model()[old(self).views@[v].collection as int].docs);
            }
        }
        Ok(index)
    }

    /// Registers a view over a collection.  A unique view is admitted
    /// only if its keys are already distinct across the collection's
    /// live documents.
    pub fn define_view(
        &mut self,
        name: ViewName,
        collection: usize,
        unique: bool,
        version: u64,
    ) -> (r: Result<usize, Error>)
        requires
            old(self).inv(),
        ensures
            final(self).inv(),
            final(self).collections == old(self).collections,
            final(self).executed == old(self).executed,
            final(self).mapper == old(self).mapper,
            match r {
                Ok(i) => i == old(self).views@.len() && collection < old(
                    self,
                ).collections@.len() && final(self).views@ == old(self).views@.push(
                    (ViewDef { name, collection, unique, version }),
                ) && (unique ==> view_unique_ok(
                    old(self).mapper,
                    old(self).views@.len() as int,
                    old(self).cols_model()[collection as int].docs,
                )),
                Err(e) => *final(self) == *old(self) && (e is CollectionNotFound <==> collection
                    >= old(self).collections@.len()) && (collection < old(
                    self,
                ).collections@.len() ==> e is UniqueKeyViolation && unique && !view_unique_ok(
                    old(self).mapper,
                    old(self).views@.len() as int,
                    old(self).cols_model()[collection as int].docs,
                )),
            },
    {
        if collection >= self.collections.len() {
            return Err(Error::CollectionNotFound);
        }
        let index = self.views.len();
        if unique {
            match check_view_unique(
                &self.mapper,
                index,
                &name,
                &self.collections[collection].documents,
            ) {
                Ok(_) => {
                },
                Err(e) => {
                    proof {
                        assert(self.cols_model()[collection as int] == self.collections@[collection as int].model());
                    }
                    return Err(e);
                },
            }
        }
        proof {
            assert(self.cols_model()[collection as int] == self.collections@[collection as int].model());
        }
        self.views.push(ViewDef { name, collection, unique, version });
        proof {
            assert(unique_ok(self.mapper, self.views@, self.cols_model())) by {
                assert(forall|v: int|
                    0 <= v < old(self).views@.len() ==> self.views@[v] == #[trigger] old(
                        self,
                    ).views@[v]);
            }
        }
        Ok(index)
    }

    /// Applies an atomic batch of operations.
    ///
    /// On success every operation has been applied in order, under one
    /// commit point; the batch receives the next transaction id and
    /// one executed record is appended.  On any refusal — an invalid
    /// operation, or a unique view whose keys would collide — the
    /// database is left exactly as it was.
    pub fn apply_transaction(&mut self, transaction: &Transaction, timestamp_millis: i64) -> (r:
        Result<Vec<OperationResult>, Error>)
        requires
            old(self).inv(),
            old(self).executed@.len() < u64::MAX,
        ensures
            final(self).inv(),
            final(self).views == old(self).views,
            final(self).mapper == old(self).mapper,
            r is Err ==> *final(self) == *old(self),
            transaction.operations@.len() == 0 ==> r is Err,
            match r {
                Ok(results) => ({
                    &&& spec_apply_ops(
                        old(self).cols_model(),
                        ops_model(transaction.operations@),
                    ) matches Ok(pair) && final(self).cols_model() == pair.0 && results_model(
                        results@,
                    ) == pair.1 && unique_ok(old(self).mapper, old(self).views@, pair.0)
                    &&& final(self).executed@.len() == old(self).executed@.len() + 1
                    &&& final(self).executed@.drop_last() == old(self).executed@
                    &&& final(self).executed@.last().transaction_id == old(self).executed@.len()
                        + 1
                    &&& final(self).executed@.last().timestamp_millis == timestamp_millis
                    &&& final(self).executed@.last().changes@.len()
                        == transaction.operations@.len()
                    &&& forall|k: int|
                        0 <= k < transaction.operations@.len() ==> changes_model(
                            final(self).executed@.last().changes@,
                        )[k] == change_of(
                            ops_model(transaction.operations@)[k],
                            #[trigger] results_model(results@)[k],
                        )
                }),
                Err(e) => transaction.operations@.len() > 0 ==> (match spec_apply_ops(
                    old(self).cols_model(),
                    ops_model(transaction.operations@),
                ) {
                    Err(f) => error_matches(e, f),
                    Ok(pair) => !unique_ok(old(self).mapper, old(self).views@, pair.0)
                        && e is UniqueKeyViolation,
                }),
            },
    {
        let n = transaction.operations.len();
        if n == 0 {
            return Err(Error::Database("an empty transaction cannot be applied".to_owned()));
        }
        let staged = match apply_ops(&self.collections, &transaction.operations) {
            Ok(t) => t,
            Err(e) => {
                return Err(e);
            },
        };
        let (cols, results, changes) = staged;
        match check_all_unique(&self.mapper, &self.views, &cols) {
            Ok(_) => {
            },
            Err(e) => {
                return Err(e);
            },
        }
        let transaction_id = (self.executed.len() as u64) + 1;
        self.collections = cols;
        self.executed.push(Executed { transaction_id, timestamp_millis, changes });
        proof {
            assert(self.executed@.drop_last() =~= old(self).executed@);
            assert(forall|i: int|
                0 <= i < self.executed@.len() ==> (#[trigger] self.executed@[i]).transaction_id
                    == i + 1) by {
                assert(forall|i: int|
                    0 <= i < old(self).executed@.len() ==> self.executed@[i] == #[trigger] old(
                        self,
                    ).executed@[i]);
            }
        }
        Ok(results)
    }

    /// Retrieves the document with `id` from a collection, or `None`
    /// if no such document is live.
    pub fn get(&self, collection: &CollectionName, id: u64) -> (r: Result<Option<Document>, Error>)
        ensures
            ({
                let ci = find_col(self.cols_model(), collection.folded());
                match r {
                    Ok(found) => ci >= 0 && (match found {
                        Some(d) => find_doc(self.cols_model()[ci].docs, id) >= 0 && d.model()
                            == self.cols_model()[ci].docs[find_doc(
                            self.cols_model()[ci].docs,
                            id,
                        )],
                        None => find_doc(self.cols_model()[ci].docs, id) == -1,
                    }),
                    Err(e) => ci == -1 && e is CollectionNotFound,
                }
            }),
    {
        let ci = match exec_find_col(&self.collections, collection) {
            Some(ci) => ci,
            None => {
                return Err(Error::CollectionNotFound);
            },
        };
        proof {
            assert(self.cols_model()[ci as int] == self.collections@[ci as int].model());
        }
        match exec_find_doc(&self.collections[ci].documents, id) {
            Some(di) => {
                proof {
                    assert(docs_model(self.collections@[ci as int].documents@)[di as int]
                        == self.collections@[ci as int].documents@[di as int].model());
                }
                Ok(Some(copy_document(&self.collections[ci].documents[di])))
            },
            None => Ok(None),
        }
    }

    /// Retrieves the documents matching `ids`, in request order; ids
    /// with no document are passed over without an error.
    #[verifier::loop_isolation(false)]
    pub fn get_multiple(&self, collection: &CollectionName, ids: &Vec<u64>) -> (r: Result<
        Vec<Document>,
        Error,
    >)
        ensures
            ({
                let ci = find_col(self.cols_model(), collection.folded());
                match r {
                    Ok(found) => ci >= 0 && docs_model(found@) == gathered_docs(
                        self.cols_model()[ci].docs,
                        ids@,
                    ),
                    Err(e) => ci == -1 && e is CollectionNotFound,
                }
            }),
    {
        let ci = match exec_find_col(&self.collections, collection) {
            Some(ci) => ci,
            None => {
                return Err(Error::CollectionNotFound);
            },
        };
        proof {
            assert(self.cols_model()[ci as int] == self.collections@[ci as int].model());
        }
        let docs = &self.collections[ci].documents;
        let ghost dm = docs_model(docs@);
        let mut found: Vec<Document> = Vec::new();
        let n = ids.len();
        for k in 0..n
            invariant
                docs_model(found@) == gathered_docs(dm, ids@.take(k as int)),
        {
            proof {
                assert(ids@.take(k + 1).drop_last() =~= ids@.take(k as int));
                assert(ids@.take(k + 1).last() == ids@[k as int]);
            }
            let ghost prev = found@;
            match exec_find_doc(docs, ids[k]) {
                Some(di) => {
                    proof {
                        assert(dm[di as int] == docs@[di as int].model());
                    }
                    let copied = copy_document(&docs[di]);
                    found.push(copied);
                    proof {
                        assert(docs_model(found@) =~= docs_model(prev).push(
                            found@.last().model(),
                        ));
                    }
                },
                None => {
                },
            }
        }
        proof {
            assert(ids@.take(n as int) =~= ids@);
        }
        Ok(found)
    }

    /// Lists the documents whose ids fall in `ids`, by ascending or
    /// descending id, up to `limit` of them.
    #[verifier::loop_isolation(false)]
    pub fn list(
        &self,
        collection: &CollectionName,
        ids: Range<u64>,
        order: Sort,
        limit: Option<usize>,
    ) -> (r: Result<Vec<Document>, Error>)
        ensures
            ({
                let ci = find_col(self.cols_model(), collection.folded());
                match r {
                    Ok(found) => ci >= 0 && ({
                        let all = matching_docs(self.cols_model()[ci].docs, ids);
                        let ordered = if order is Ascending {
                            all
                        } else {
                            all.reverse()
                        };
                        let capped = match limit {
                            Some(l) => if l < ordered.len() {
                                ordered.take(l as int)
                            } else {
                                ordered
                            },
                            None => ordered,
                        };
                        docs_model(found@) == capped
                    }),
                    Err(e) => ci == -1 && e is CollectionNotFound,
                }
            }),
    {
        let ci = match exec_find_col(&self.collections, collection) {
            Some(ci) => ci,
            None => {
                return Err(Error::CollectionNotFound);
            },
        };
        proof {
            assert(self.cols_model()[ci as int] == self.collections@[ci as int].model());
        }
        let docs = &self.collections[ci].documents;
        let ghost dm = docs_model(docs@);
        let mut matched: Vec<Document> = Vec::new();
        let n = docs.len();
        for i in 0..n
            invariant
                docs_model(matched@) == matching_docs(dm.take(i as int), ids),
        {
            proof {
                assert(dm.take(i + 1).drop_last() =~= dm.take(i as int));
                assert(dm.take(i + 1).last() == dm[i as int]);
                assert(dm[i as int] == docs@[i as int].model());
            }
            let ghost prev = matched@;
            if id_matches(docs[i].header.id, &ids) {
                let copied = copy_document(&docs[i]);
                matched.push(copied);
                proof {
                    assert(docs_model(matched@) =~= docs_model(prev).push(
                        matched@.last().model(),
                    ));
                }
            }
        }
        proof {
            assert(dm.take(n as int) =~= dm);
        }
        let mut ordered = match order {
            Sort::Ascending => matched,
            Sort::Descending => {
                let mut rev: Vec<Document> = Vec::new();
                let m = matched.len();
                for j in 0..m
                    invariant
                        m == matched@.len(),
                        rev@.len() == j,
                        forall|k: int|
                            0 <= k < j ==> (#[trigger] rev@[k]).model() == matched@[m - 1
                                - k].model(),
                {
                    let copied = copy_document(&matched[m - 1 - j]);
                    rev.push(copied);
                }
                proof {
                    assert(docs_model(rev@) =~= docs_model(matched@).reverse());
                }
                rev
            },
        };
        if let Some(l) = limit {
            if l < ordered.len() {
                let ghost before = ordered@;
                ordered.truncate(l);
                proof {
                    assert(docs_model(ordered@) =~= docs_model(before).take(l as int));
                }
            }
        }
        Ok(ordered)
    }


    /// Inserts one document, in a transaction of its own, and returns
    /// its header.  With an id the insert claims exactly that id;
    /// without one the engine chooses.
    pub fn insert(
        &mut self,
        collection: &CollectionName,
        id: Option<u64>,
        contents: Vec<u8>,
        timestamp_millis: i64,
    ) -> (r: Result<Header, Error>)
        requires
            old(self).inv(),
            old(self).executed@.len() < u64::MAX,
        ensures
            final(self).inv(),
            final(self).views == old(self).views,
            final(self).mapper == old(self).mapper,
            r is Err ==> *final(self) == *old(self),
            ({
                let op = (OpModel::Insert {
                    collection: collection.folded(),
                    id,
                    contents: contents@,
                });
                match r {
                    Ok(h) => spec_apply_op(old(self).cols_model(), op) matches Ok(pair) && final(self).cols_model() == pair.0 && pair.1 == ResultModel::Updated(h.model())
                        && unique_ok(old(self).mapper, old(self).views@, pair.0) && final(self).executed@.len() == old(self).executed@.len() + 1,
                    Err(e) => (match spec_apply_op(old(self).cols_model(), op) {
                        Err(f) => error_matches(e, f),
                        Ok(pair) => !unique_ok(old(self).mapper, old(self).views@, pair.0)
                            && e is UniqueKeyViolation,
                    }),
                }
            }),
    {
        let ghost op = (OpModel::Insert { collection: collection.folded(), id, contents: contents@ });
        let tx = Transaction::insert(copy_collection_name(collection), id, contents);
        proof {
            assert(ops_model(tx.operations@) =~= seq![op]);
            lemma_spec_apply_ops_single(self.cols_model(), op);
        }
        let mut results = match self.apply_transaction(&tx, timestamp_millis) {
            Ok(results) => results,
            Err(e) => {
                return Err(e);
            },
        };
        let ghost rs = results@;
        proof {
            assert(results_model(rs)[0] == rs[0].model());
        }
        match results.pop() {
            Some(OperationResult::DocumentUpdated { header }) => Ok(header),
            _ => {
                proof {
                    assert(false);
                }
                Err(Error::Database("a single insert yields a single update".to_owned()))
            },
        }
    }

    /// Rewrites one document, in a transaction of its own, provided it
    /// still stands at the revision named by `header`; the returned
    /// header carries the next revision.
    pub fn update(&mut self, header: &Header, contents: Vec<u8>, timestamp_millis: i64) -> (r:
        Result<Header, Error>)
        requires
            old(self).inv(),
            old(self).executed@.len() < u64::MAX,
        ensures
            final(self).inv(),
            final(self).views == old(self).views,
            final(self).mapper == old(self).mapper,
            r is Err ==> *final(self) == *old(self),
            r matches Ok(h) ==> h.revision.sequence == header.revision.sequence + 1,
            ({
                let op = (OpModel::Update { header: header.model(), contents: contents@ });
                match r {
                    Ok(h) => spec_apply_op(old(self).cols_model(), op) matches Ok(pair) && final(self).cols_model() == pair.0 && pair.1 == ResultModel::Updated(h.model())
                        && unique_ok(old(self).mapper, old(self).views@, pair.0) && final(self).executed@.len() == old(self).executed@.len() + 1,
                    Err(e) => (match spec_apply_op(old(self).cols_model(), op) {
                        Err(f) => error_matches(e, f),
                        Ok(pair) => !unique_ok(old(self).mapper, old(self).views@, pair.0)
                            && e is UniqueKeyViolation,
                    }),
                }
            }),
    {
        let ghost op = (OpModel::Update { header: header.model(), contents: contents@ });
        let tx = Transaction::update(copy_header(header), contents);
        proof {
            assert(ops_model(tx.operations@) =~= seq![op]);
            lemma_spec_apply_ops_single(self.cols_model(), op);
        }
        let mut results = match self.apply_transaction(&tx, timestamp_millis) {
            Ok(results) => results,
            Err(e) => {
                return Err(e);
            },
        };
        let ghost rs = results@;
        proof {
            assert(results_model(rs)[0] == rs[0].model());
        }
        match results.pop() {
            Some(OperationResult::DocumentUpdated { header: new_header }) => Ok(new_header),
            _ => {
                proof {
                    assert(false);
                }
                Err(Error::Database("a single update yields a single update".to_owned()))
            },
        }
    }

    /// Removes one document, in a transaction of its own, provided it
    /// still stands at the revision named by `header`.
    pub fn delete(&mut self, header: &Header, timestamp_millis: i64) -> (r: Result<(), Error>)
        requires
            old(self).inv(),
            old(self).executed@.len() < u64::MAX,
        ensures
            final(self).inv(),
            final(self).views == old(self).views,
            final(self).mapper == old(self).mapper,
            r is Err ==> *final(self) == *old(self),
            ({
                let op = (OpModel::Delete { header: header.model() });
                match r {
                    Ok(_) => spec_apply_op(old(self).cols_model(), op) matches Ok(pair) && final(self).cols_model() == pair.0 && (pair.1 matches ResultModel::Deleted(_, did)
                        && did == header.id) && unique_ok(old(self).mapper, old(self).views@, pair.0)
                        && final(self).executed@.len() == old(self).executed@.len() + 1,
                    Err(e) => (spec_apply_op(old(self).cols_model(), op) matches Err(f)
                        && error_matches(e, f)),
                }
            }),
    {
        let ghost op = (OpModel::Delete { header: header.model() });
        let tx = Transaction::delete(copy_header(header));
        proof {
            assert(ops_model(tx.operations@) =~= seq![op]);
            lemma_spec_apply_ops_single(self.cols_model(), op);
        }
        match self.apply_transaction(&tx, timestamp_millis) {
            Ok(_) => Ok(()),
            Err(e) => {
                proof {
                    if spec_apply_op(old(self).cols_model(), op) is Ok {
                        lemma_delete_op_preserves_unique(
                            old(self).mapper,
                            old(self).views@,
                            old(self).cols_model(),
                            header.model(),
                        );
                    }
                }
                Err(e)
            },
        }
    }


    /// Resolves a collection name, compared without regard to ASCII
    /// case, to its index in this store.
    pub fn collection_id(&self, name: &CollectionName) -> (r: Option<usize>)
        ensures
            match r {
                Some(i) => (i as int) < self.collections@.len() && find_col(
                    self.cols_model(),
                    name.folded(),
                ) == i as int,
                None => find_col(self.cols_model(), name.folded()) == -1,
            },
    {
        exec_find_col(&self.collections, name)
    }

    /// The id of the most recently committed transaction, if any.
    pub fn last_transaction_id(&self) -> (r: Option<u64>)
        ensures
            match r {
                Some(id) => self.executed@.len() > 0 && id == self.executed@.last().transaction_id,
                None => self.executed@.len() == 0,
            },
    {
        let n = self.executed.len();
        if n == 0 {
            None
        } else {
            Some(self.executed[n - 1].transaction_id)
        }
    }

    /// Lists executed records beginning at `starting_id`, capped at
    /// one thousand by default and one hundred thousand at most.
    #[verifier::loop_isolation(false)]
    pub fn list_executed_transactions(
        &self,
        starting_id: Option<u64>,
        result_limit: Option<usize>,
    ) -> (r: Result<Vec<Executed>, Error>)
        ensures
            ({
                let len = self.executed@.len() as int;
                let start_at = (match starting_id {
                    Some(s) => if s >= 1 {
                        if s - 1 <= len {
                            s - 1
                        } else {
                            len
                        }
                    } else {
                        0
                    },
                    None => 0,
                });
                let lim = (match result_limit {
                    Some(l) => if l > 100000 {
                        100000 as int
                    } else {
                        l as int
                    },
                    None => 1000 as int,
                });
                let upto = if start_at + lim <= len {
                    start_at + lim
                } else {
                    len
                };
                r matches Ok(records) && executed_model(records@) == executed_model(
                    self.executed@.subrange(start_at, upto),
                )
            }),
    {
        let len = self.executed.len();
        let start_at: usize = match starting_id {
            Some(s) => if s >= 1 {
                if s - 1 <= len as u64 {
                    (s - 1) as usize
                } else {
                    len
                }
            } else {
                0
            },
            None => 0,
        };
        let lim: usize = match result_limit {
            Some(l) => if l > 100000 {
                100000
            } else {
                l
            },
            None => 1000,
        };
        let upto: usize = if lim <= len - start_at {
            start_at + lim
        } else {
            len
        };
        let mut records: Vec<Executed> = Vec::new();
        for i in start_at..upto
            invariant
                start_at <= i <= upto,
                records@.len() == i - start_at,
                forall|j: int|
                    0 <= j < records@.len() ==> (#[trigger] records@[j]).model()
                        == self.executed@[start_at + j].model(),
        {
            let copied = copy_executed(&self.executed[i]);
            records.push(copied);
        }
        proof {
            assert(executed_model(records@) =~= executed_model(
                self.executed@.subrange(start_at as int, upto as int),
            ));
        }
        Ok(records)
    }
}

/// Transaction ids: every committed record's id is its place in the
/// log plus one, so ids are strictly increasing and gap-free from one.
pub proof fn lemma_transaction_ids_monotonic<M: ViewMapper>(db: Db<M>)
    requires
        db.inv(),
    ensures
        forall|i: int|
            0 <= i < db.executed@.len() ==> (#[trigger] db.executed@[i]).transaction_id == i + 1,
        forall|i: int, j: int|
            0 <= i < j < db.executed@.len() ==> (#[trigger] db.executed@[i]).transaction_id < (
            #[trigger] db.executed@[j]).transaction_id,
{
}

/// A mapper whose every view indexes a document under the document's
/// whole contents, with a count of one as the value.
pub struct ContentsMapper {
}

impl ViewMapper for ContentsMapper {
    open spec fn entries_spec(&self, view: int, doc: DocModel) -> Seq<(Seq<u8>, Seq<u8>)> {
        seq![(doc.contents, crate::codec::be_bytes(1, 8))]
    }

    fn entries(&self, view: usize, doc: &Document) -> (r: Vec<(Vec<u8>, Vec<u8>)>) {
        let mut r: Vec<(Vec<u8>, Vec<u8>)> = Vec::new();
        r.push((
            vstd::slice::slice_to_vec(doc.contents.as_slice()),
            crate::codec::encode_be(1, 8),
        ));
        proof {
            assert(pairs_model(r@) =~= seq![(doc.contents@, crate::codec::be_bytes(1, 8))]);
        }
        r
    }
}

} // verus!
