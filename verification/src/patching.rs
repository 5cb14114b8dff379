//! The tools that change the frontmatter of documents.

use vstd::prelude::*;
use crate::args::{
    arg_flag, arg_list, arg_texts, flag_arg, invalid, invalid_arguments, list_arg, need_hash,
    need_id, need_text, require_hash, require_id, require_str, texts_arg, Parsed,
};
use crate::json::{arr, JsonFields, JsonModel, Value};
use crate::mcp::{ToolAnswer, ToolError, ToolErrorModel};
use crate::model::{Budget, ConceptId, ContentId, Principal, PrincipalModel};
use crate::number::display_text;
use crate::okf::{FmModel, FmValue};
use crate::patch::{
    final_tags, patch_frontmatter, patched, tags_after, FrontmatterPatch, PatchModel,
};
use crate::replies::{
    batch_json, batch_value, domain, domain_error, failed_item, failed_item_value, item_error_json,
    item_error_value, kind_json, kind_value, skipped_item, skipped_item_value, Shown,
};
use crate::repo::{Answer, MemoryRepository};
use crate::store::{
    BulkItem, BulkItemModel, BulkModel, CommitRequest, DocViewModel, DocumentView, RequestModel,
};
use crate::text::{
    chars_of, find, find_char, find_char_of, find_of, has_string, lemma_views_push, part_from,
    part_to, res_view, str_eq, trim, trim_of, views,
};
use crate::writing::{foreseen, foresee, write_document, written};

verus! {

// ---------------------------------------------------------------------
// The change asked for
// ---------------------------------------------------------------------

/// A list of texts and nothing else.
pub open spec fn all_texts(l: Seq<JsonModel>, n: int) -> Parsed<Seq<Seq<char>>>
    decreases n,
{
    if n <= 0 {
        Ok(Seq::empty())
    } else {
        match all_texts(l, n - 1) {
            Err(e) => Err(e),
            Ok(before) => match l[n - 1].text() {
                Some(t) => Ok(before.push(t)),
                None => invalid("valores en listas de 'set' deben ser strings"@),
            },
        }
    }
}

pub open spec fn truth_text(b: bool) -> Seq<char> {
    if b {
        "true"@
    } else {
        "false"@
    }
}

/// A value for a field: a text, a list of texts, a flag or a number.
pub open spec fn field_value(k: Seq<char>, v: JsonModel) -> Parsed<FmModel> {
    match v {
        JsonModel::String(t) => Ok(FmModel::Scalar(t)),
        JsonModel::Array(l) => match all_texts(l, l.len() as int) {
            Err(e) => Err(e),
            Ok(items) => Ok(FmModel::List(items)),
        },
        JsonModel::Bool(b) => Ok(FmModel::Scalar(truth_text(b))),
        JsonModel::Number(n) => Ok(FmModel::Scalar(display_text(n))),
        _ => invalid("valor no soportado en 'set' para la clave "@ + k),
    }
}

/// The first `n` fields to write.
pub open spec fn set_to(f: JsonFields, n: int) -> Parsed<Seq<(Seq<char>, FmModel)>>
    decreases n,
{
    if n <= 0 {
        Ok(Seq::empty())
    } else {
        match set_to(f, n - 1) {
            Err(e) => Err(e),
            Ok(before) => match field_value(f[n - 1].0, f[n - 1].1) {
                Err(e) => Err(e),
                Ok(v) => Ok(before.push((f[n - 1].0, v))),
            },
        }
    }
}

pub open spec fn set_arg(a: JsonModel) -> Parsed<Seq<(Seq<char>, FmModel)>> {
    match a.member("set"@) {
        None => Ok(Seq::empty()),
        Some(v) => match v.fields() {
            None => invalid("'set' debe ser un objeto/mapa"@),
            Some(f) => set_to(f, f.len() as int),
        },
    }
}

/// The patch that some arguments ask for.
pub open spec fn patch_arg(a: JsonModel) -> Parsed<PatchModel> {
    match set_arg(a) {
        Err(e) => Err(e),
        Ok(set) => Ok(
            PatchModel {
                set,
                remove: texts_arg(a, "remove"@),
                add_tags: texts_arg(a, "add_tags"@),
                remove_tags: texts_arg(a, "remove_tags"@),
            },
        ),
    }
}

/// The view of the fields to write.
pub open spec fn set_result(r: Result<Vec<(String, FmValue)>, ToolError>) -> Parsed<
    Seq<(Seq<char>, FmModel)>,
> {
    match r {
        Ok(v) => Ok(views(v@)),
        Err(e) => Err(e@),
    }
}

proof fn lemma_texts_stay_wrong(l: Seq<JsonModel>, i: int, n: int)
    requires
        0 <= i <= n,
        all_texts(l, i) is Err,
    ensures
        all_texts(l, n) == all_texts(l, i),
    decreases n,
{
    if i < n {
        lemma_texts_stay_wrong(l, i, n - 1);
    }
}

proof fn lemma_set_stays_wrong(f: JsonFields, i: int, n: int)
    requires
        0 <= i <= n,
        set_to(f, i) is Err,
    ensures
        set_to(f, n) == set_to(f, i),
    decreases n,
{
    if i < n {
        lemma_set_stays_wrong(f, i, n - 1);
    }
}

fn read_texts(l: &Vec<Value>) -> (r: Result<Vec<String>, ToolError>)
    ensures
        match r {
            Ok(v) => all_texts(views(l@), l@.len() as int) == Ok::<_, ToolErrorModel>(views(v@)),
            Err(e) => all_texts(views(l@), l@.len() as int) == Err::<Seq<Seq<char>>, _>(e@),
        },
{
    let ghost all = views(l@);
    let mut out: Vec<String> = Vec::new();
    assert(views(out@) =~= Seq::empty());
    let mut i: usize = 0;
    while i < l.len()
        invariant
            i <= l.len(),
            all == views(l@),
            all_texts(all, i as int) == Ok::<_, ToolErrorModel>(views(out@)),
        decreases l.len() - i,
    {
        assert(all[i as int] == l@[i as int]@);
        match l[i].as_str() {
            Some(t) => {
                let t = t.to_owned();
                proof {
                    lemma_views_push(out@, t);
                }
                out.push(t);
            },
            None => {
                proof {
                    lemma_texts_stay_wrong(all, i + 1, all.len() as int);
                }
                return Err(invalid_arguments("valores en listas de 'set' deben ser strings"));
            },
        }
        i += 1;
    }
    Ok(out)
}

fn read_field(k: &str, v: &Value) -> (r: Result<FmValue, ToolError>)
    ensures
        res_view(r) == field_value(k@, v@),
{
    broadcast use crate::json::lemma_array_view;

    match v {
        Value::String(t) => Ok(FmValue::Scalar(t.clone())),
        Value::Array(l) => match read_texts(l) {
            Ok(items) => Ok(FmValue::List(items)),
            Err(e) => Err(e),
        },
        Value::Bool(b) => Ok(
            FmValue::Scalar(
                if *b {
                    "true".to_owned()
                } else {
                    "false".to_owned()
                },
            ),
        ),
        Value::Number(n) => Ok(FmValue::Scalar(n.display())),
        _ => {
            let mut m = "valor no soportado en 'set' para la clave ".to_owned();
            m.push_str(k);
            Err(ToolError::InvalidArguments(m))
        },
    }
}

fn read_set(args: &Value) -> (r: Result<Vec<(String, FmValue)>, ToolError>)
    ensures
        set_result(r) == set_arg(args@),
{
    let mut out: Vec<(String, FmValue)> = Vec::new();
    assert(views(out@) =~= Seq::empty());
    let f = match args.get("set") {
        None => {
            return Ok(out);
        },
        Some(v) => match v.as_object() {
            None => {
                return Err(invalid_arguments("'set' debe ser un objeto/mapa"));
            },
            Some(f) => f,
        },
    };
    let ghost all = views(f@);
    let mut i: usize = 0;
    while i < f.len()
        invariant
            i <= f.len(),
            all == views(f@),
            args@.member("set"@) is Some,
            args@.member("set"@)->0.fields() == Some(all),
            set_to(all, i as int) == Ok::<_, ToolErrorModel>(views(out@)),
        decreases f.len() - i,
    {
        assert(all[i as int] == f@[i as int]@);
        match read_field(f[i].0.as_str(), &f[i].1) {
            Ok(v) => {
                let entry = (f[i].0.clone(), v);
                proof {
                    lemma_views_push(out@, entry);
                }
                out.push(entry);
            },
            Err(e) => {
                proof {
                    lemma_set_stays_wrong(all, i + 1, all.len() as int);
                }
                return Err(e);
            },
        }
        i += 1;
    }
    Ok(out)
}

fn read_patch(args: &Value) -> (r: Result<FrontmatterPatch, ToolError>)
    ensures
        res_view(r) == patch_arg(args@),
{
    match read_set(args) {
        Err(e) => Err(e),
        Ok(set) => Ok(
            FrontmatterPatch {
                set,
                remove: arg_texts(args, "remove"),
                add_tags: arg_texts(args, "add_tags"),
                remove_tags: arg_texts(args, "remove_tags"),
            },
        ),
    }
}

// ---------------------------------------------------------------------
// Evidence before done
// ---------------------------------------------------------------------

/// Fewest characters of evidence that count.
pub const MIN_EVIDENCE: usize = 40;

/// The document has an evidence section with something in it: what stands
/// between its heading and the next one, without the white space around it.
pub open spec fn has_evidence(raw: Seq<char>) -> bool {
    match find(raw, "## Evidencia"@) {
        None => false,
        Some(i) => {
            let after = raw.skip(i);
            match find_char(after, '\n') {
                None => false,
                Some(k) => {
                    let rest = after.skip(k);
                    let section = match find(rest, "\n## "@) {
                        Some(e) => rest.take(e),
                        None => rest,
                    };
                    trim(section).len() >= MIN_EVIDENCE
                },
            }
        },
    }
}

/// Whether a document shows evidence of the work done.
pub fn has_gauntlet_evidence(raw: &str) -> (r: bool)
    ensures
        r == has_evidence(raw@),
{
    let chars = chars_of(raw);
    let i = match find_of(chars.as_slice(), "## Evidencia") {
        None => {
            return false;
        },
        Some(i) => i,
    };
    let after = part_from(chars.as_slice(), i);
    match find_char_of(after, '\n') {
        None => false,
        Some(k) => {
            let rest = part_from(after, k);
            let section = match find_of(rest, "\n## ") {
                Some(e) => part_to(rest, e),
                None => rest,
            };
            trim_of(section).len() >= MIN_EVIDENCE
        },
    }
}

/// The patch would leave a task marked as done without evidence.
pub open spec fn unproven(d: DocViewModel, p: PatchModel) -> bool {
    &&& d.doc_type == "task"@
    &&& final_tags(p, d.tags).contains("status-done"@)
    &&& !has_evidence(d.raw)
}

pub const NO_EVIDENCE: &'static str =
    "no se puede poner status-done en una tarea sin una sección '## Evidencia' en el cuerpo (comandos ejecutados y resultados reales — gauntlet de old-coder, github.com/AmazingAng/old-coder); añádela primero con memory_commit y luego reintenta el patch";

/// The document after the patch, or why there is none.
pub open spec fn patched_doc(args: JsonModel, d: DocViewModel, b: Budget) -> Parsed<Seq<char>> {
    match patch_arg(args) {
        Err(e) => Err(e),
        Ok(p) => if unproven(d, p) {
            invalid(NO_EVIDENCE@)
        } else {
            match patched(d.raw, p, b) {
                Ok(t) => Ok(t),
                Err(e) => Err(
                    ToolErrorModel::Failed("error aplicando el patch: "@ + e.message()),
                ),
            }
        },
    }
}

fn patch_document(args: &Value, d: &DocumentView, budget: &Budget) -> (r: Result<String, ToolError>)
    ensures
        res_view(r) == patched_doc(args@, d@, *budget),
{
    let p = match read_patch(args) {
        Ok(p) => p,
        Err(e) => {
            return Err(e);
        },
    };
    if str_eq(d.doc_type.as_str(), "task") {
        let tags = tags_after(&p, &d.tags);
        if has_string(&tags, "status-done") && !has_gauntlet_evidence(d.raw.as_str()) {
            return Err(invalid_arguments(NO_EVIDENCE));
        }
    }
    match patch_frontmatter(d.raw.as_str(), &p, budget) {
        Ok(t) => Ok(t),
        Err(e) => {
            let mut m = "error aplicando el patch: ".to_owned();
            m.push_str(e.message().as_str());
            Err(ToolError::Failed(m))
        },
    }
}

// ---------------------------------------------------------------------
// One document
// ---------------------------------------------------------------------

/// Which document to change, from which state, and why.
pub struct PatchHead {
    pub id: ConceptId,
    pub expected: ContentId,
    pub reason: String,
}

/// Mathematical counterpart of [`PatchHead`].
pub struct PatchHeadModel {
    pub id: Seq<char>,
    pub expected: Seq<u8>,
    pub reason: Seq<char>,
}

impl View for PatchHead {
    type V = PatchHeadModel;

    open spec fn view(&self) -> PatchHeadModel {
        PatchHeadModel { id: self.id@, expected: self.expected@, reason: self.reason@ }
    }
}

pub open spec fn head_args(a: JsonModel) -> Parsed<PatchHeadModel> {
    match need_id(a, "concept_id"@) {
        Err(e) => Err(e),
        Ok(id) => match need_hash(a, "expected_hash inválido"@) {
            Err(e) => Err(e),
            Ok(expected) => match need_text(a, "reason"@) {
                Err(e) => Err(e),
                Ok(reason) => Ok(PatchHeadModel { id, expected, reason }),
            },
        },
    }
}

fn read_head(args: &Value) -> (r: Result<PatchHead, ToolError>)
    ensures
        res_view(r) == head_args(args@),
{
    let id = match require_id(args, "concept_id") {
        Ok(x) => x,
        Err(e) => {
            return Err(e);
        },
    };
    let expected = match require_hash(args, "expected_hash inválido") {
        Ok(x) => x,
        Err(e) => {
            return Err(e);
        },
    };
    let reason = match require_str(args, "reason") {
        Ok(x) => x,
        Err(e) => {
            return Err(e);
        },
    };
    Ok(PatchHead { id, expected, reason })
}

pub open spec fn nothing_to_patch(id: Seq<char>) -> Seq<char> {
    "no se encontró el documento "@ + id + " para aplicar el patch"@
}

fn no_document(id: &ConceptId) -> (r: String)
    ensures
        r@ == nothing_to_patch(id@),
{
    let mut m = "no se encontró el documento ".to_owned();
    m.push_str(id.as_str());
    m.push_str(" para aplicar el patch");
    m
}

/// The request that a patch turns into.
pub open spec fn patch_request(h: PatchHeadModel, markdown: Seq<char>) -> RequestModel {
    RequestModel {
        concept_id: h.id,
        expected: Some(h.expected),
        markdown,
        reason: h.reason,
    }
}

/// The patch of what the store has.
pub open spec fn patched_with<R: MemoryRepository>(
    pre: R,
    actor: PrincipalModel,
    b: Budget,
    args: JsonModel,
    h: PatchHeadModel,
    a: Answer<Option<DocViewModel>>,
    post: R,
    r: ToolAnswer,
) -> bool {
    match a {
        Err(e) => r == ToolAnswer::Err(domain(e)) && post == pre,
        Ok(None) => r == ToolAnswer::Err(ToolErrorModel::Failed(nothing_to_patch(h.id))) && post
            == pre,
        Ok(Some(d)) => match patched_doc(args, d, b) {
            Err(e) => r == ToolAnswer::Err(e) && post == pre,
            Ok(markdown) => if flag_arg(args, "dry_run"@, false) {
                &&& r == foreseen(h.id, Some(h.expected), markdown, Some(d))
                &&& post == pre
            } else {
                written(pre, patch_request(h, markdown), actor, b, post, r)
            },
        },
    }
}

pub open spec fn patched_at<R: MemoryRepository>(
    pre: R,
    actor: PrincipalModel,
    b: Budget,
    args: JsonModel,
    h: PatchHeadModel,
    post: R,
    r: ToolAnswer,
) -> bool {
    exists|a: Answer<Option<DocViewModel>>| #[trigger]
        pre.get_rel(h.id, a) && patched_with(pre, actor, b, args, h, a, post, r)
}

pub open spec fn patch_tool<R: MemoryRepository>(
    pre: R,
    actor: PrincipalModel,
    b: Budget,
    args: JsonModel,
    post: R,
    r: ToolAnswer,
) -> bool {
    match head_args(args) {
        Err(e) => r == ToolAnswer::Err(e) && post == pre,
        Ok(h) => patched_at(pre, actor, b, args, h, post, r),
    }
}

fn patch_one<R: MemoryRepository>(
    repo: &mut R,
    args: &Value,
    h: PatchHead,
    actor: &Principal,
    budget: &Budget,
) -> (r: Result<Value, ToolError>)
    ensures
        patched_at(*old(repo), actor@, *budget, args@, h@, *final(repo), res_view(r)),
{
    let got = repo.get(&h.id);
    let ghost a = crate::repo::opt_answer(got);
    assert(old(repo).get_rel(h@.id, a));
    match got {
        Err(e) => Err(domain_error(e)),
        Ok(None) => Err(ToolError::Failed(no_document(&h.id))),
        Ok(Some(d)) => {
            assert(a == Ok::<_, crate::store::StoreErrorModel>(Some(d@)));
            match patch_document(args, &d, budget) {
                Err(e) => Err(e),
                Ok(markdown) => {
                    if arg_flag(args, "dry_run", false) {
                        let current = Some(d);
                        return foresee(&h.id, Some(h.expected), markdown.as_str(), &current);
                    }
                    let request = CommitRequest {
                        concept_id: h.id,
                        expected: Some(h.expected),
                        markdown,
                        reason: h.reason,
                    };
                    write_document(repo, request, actor, budget)
                },
            }
        },
    }
}

pub fn memory_patch<R: MemoryRepository>(
    repo: &mut R,
    args: &Value,
    actor: &Principal,
    budget: &Budget,
) -> (r: Result<Value, ToolError>)
    ensures
        patch_tool(*old(repo), actor@, *budget, args@, *final(repo), res_view(r)),
{
    match read_head(args) {
        Err(e) => Err(e),
        Ok(h) => patch_one(repo, args, h, actor, budget),
    }
}

// ---------------------------------------------------------------------
// Several documents
// ---------------------------------------------------------------------

/// A patch of a batch: ready to be written, or refused beforehand.
pub enum Stage {
    Ready(CommitRequest),
    Refused(Value),
}

/// Mathematical counterpart of [`Stage`].
pub enum StageModel {
    Ready(RequestModel),
    Refused(JsonModel),
}

impl View for Stage {
    type V = StageModel;

    open spec fn view(&self) -> StageModel {
        match *self {
            Stage::Ready(q) => StageModel::Ready(q@),
            Stage::Refused(e) => StageModel::Refused(e@),
        }
    }
}

/// Why a patch of a batch was refused beforehand.
pub open spec fn refusal_json(e: ToolErrorModel) -> JsonModel {
    match e {
        ToolErrorModel::InvalidArguments(m) => kind_json("invalid_arguments"@, m),
        ToolErrorModel::Failed(m) => kind_json("error"@, m),
        ToolErrorModel::UnknownTool => kind_json("error"@, Seq::empty()),
    }
}

fn refusal_value(e: &ToolError) -> (r: Value)
    ensures
        r@ == refusal_json(e@),
{
    match e {
        ToolError::InvalidArguments(m) => kind_value("invalid_arguments", m.as_str()),
        ToolError::Failed(m) => kind_value("error", m.as_str()),
        ToolError::UnknownTool => {
            let none = String::new();
            assert(none@ =~= Seq::empty());
            kind_value("error", none.as_str())
        },
    }
}

/// One patch of a batch, on what the store has.
pub open spec fn stage(
    args: JsonModel,
    h: PatchHeadModel,
    a: Answer<Option<DocViewModel>>,
    b: Budget,
) -> StageModel {
    match a {
        Err(e) => StageModel::Refused(item_error_json(e)),
        Ok(None) => StageModel::Refused(kind_json("not_found"@, nothing_to_patch(h.id))),
        Ok(Some(d)) => match patched_doc(args, d, b) {
            Err(e) => StageModel::Refused(refusal_json(e)),
            Ok(markdown) => StageModel::Ready(patch_request(h, markdown)),
        },
    }
}

/// The first `n` heads of a batch.
pub open spec fn heads_to(l: Seq<JsonModel>, n: int) -> Parsed<Seq<PatchHeadModel>>
    decreases n,
{
    if n <= 0 {
        Ok(Seq::empty())
    } else {
        match heads_to(l, n - 1) {
            Err(e) => Err(e),
            Ok(before) => match head_args(l[n - 1]) {
                Err(e) => Err(e),
                Ok(h) => Ok(before.push(h)),
            },
        }
    }
}

pub open spec fn heads_arg(a: JsonModel) -> Parsed<Seq<PatchHeadModel>> {
    match list_arg(a, "patches"@) {
        None => invalid("falta el argumento 'patches' (array)"@),
        Some(l) => heads_to(l, l.len() as int),
    }
}

/// What the store has of each document of a batch.
pub open spec fn looked_up<R: MemoryRepository>(
    repo: R,
    hs: Seq<PatchHeadModel>,
    gs: Seq<Answer<Option<DocViewModel>>>,
) -> bool {
    &&& gs.len() == hs.len()
    &&& forall|i: int| 0 <= i < hs.len() ==> repo.get_rel(hs[i].id, #[trigger] gs[i])
}

pub open spec fn stages(
    l: Seq<JsonModel>,
    hs: Seq<PatchHeadModel>,
    gs: Seq<Answer<Option<DocViewModel>>>,
    b: Budget,
) -> Seq<StageModel> {
    Seq::new(hs.len(), |i: int| stage(l[i], hs[i], gs[i], b))
}

pub open spec fn some_refused(st: Seq<StageModel>) -> bool {
    exists|i: int| 0 <= i < st.len() && (#[trigger] st[i]) is Refused
}

/// The requests among the first `n`.
pub open spec fn ready_to(st: Seq<StageModel>, n: int) -> Seq<RequestModel>
    decreases n,
{
    if n <= 0 {
        Seq::empty()
    } else {
        match st[n - 1] {
            StageModel::Ready(q) => ready_to(st, n - 1).push(q),
            StageModel::Refused(_) => ready_to(st, n - 1),
        }
    }
}

/// A batch that is held back: what was refused says why, the rest is skipped.
pub open spec fn held_back(st: Seq<StageModel>) -> Seq<JsonModel> {
    Seq::new(
        st.len(),
        |i: int|
            match st[i] {
                StageModel::Refused(e) => failed_item(e),
                StageModel::Ready(_) => skipped_item(),
            },
    )
}

/// What became of one patch, of which `k` others were ready before.
pub open spec fn merged_item(s: StageModel, items: Seq<BulkItemModel>, k: int) -> JsonModel {
    match s {
        StageModel::Refused(e) => failed_item(e),
        StageModel::Ready(_) => if k < items.len() {
            BulkItem::json(items[k])
        } else {
            skipped_item()
        },
    }
}

/// What was refused and what the store did, in the order of the batch.
pub open spec fn merged(st: Seq<StageModel>, items: Seq<BulkItemModel>) -> Seq<JsonModel> {
    Seq::new(st.len(), |i: int| merged_item(st[i], items, ready_to(st, i).len() as int))
}

pub open spec fn merged_answer(st: Seq<StageModel>, a: Answer<BulkModel>) -> ToolAnswer {
    match a {
        Err(e) => Err(domain(e)),
        Ok(x) => Ok(batch_json(x.applied, JsonModel::Array(merged(st, x.items)))),
    }
}

pub open spec fn batch_patched<R: MemoryRepository>(
    pre: R,
    actor: PrincipalModel,
    b: Budget,
    atomic: bool,
    st: Seq<StageModel>,
    post: R,
    r: ToolAnswer,
) -> bool {
    exists|a: Answer<BulkModel>| #[trigger]
        R::bulk_rel(pre, ready_to(st, st.len() as int), atomic, actor, b, post, a) && r
            == merged_answer(st, a)
}

/// A batch whose patches are staged. An atomic one with a refused patch
/// writes nothing.
pub open spec fn staged_batch<R: MemoryRepository>(
    pre: R,
    actor: PrincipalModel,
    b: Budget,
    atomic: bool,
    st: Seq<StageModel>,
    post: R,
    r: ToolAnswer,
) -> bool {
    if atomic && some_refused(st) {
        &&& post == pre
        &&& r == ToolAnswer::Ok(batch_json(false, JsonModel::Array(held_back(st))))
    } else {
        batch_patched(pre, actor, b, atomic, st, post, r)
    }
}

pub open spec fn batch_staged<R: MemoryRepository>(
    pre: R,
    actor: PrincipalModel,
    b: Budget,
    atomic: bool,
    l: Seq<JsonModel>,
    hs: Seq<PatchHeadModel>,
    post: R,
    r: ToolAnswer,
) -> bool {
    exists|gs: Seq<Answer<Option<DocViewModel>>>| #[trigger]
        looked_up(pre, hs, gs) && staged_batch(
            pre,
            actor,
            b,
            atomic,
            stages(l, hs, gs, b),
            post,
            r,
        )
}

/// A batch is atomic unless it says otherwise.
pub open spec fn bulk_patch_tool<R: MemoryRepository>(
    pre: R,
    actor: PrincipalModel,
    b: Budget,
    args: JsonModel,
    post: R,
    r: ToolAnswer,
) -> bool {
    match heads_arg(args) {
        Err(e) => r == ToolAnswer::Err(e) && post == pre,
        Ok(hs) => batch_staged(
            pre,
            actor,
            b,
            flag_arg(args, "atomic"@, true),
            list_arg(args, "patches"@)->0,
            hs,
            post,
            r,
        ),
    }
}

proof fn lemma_heads_stay_wrong(l: Seq<JsonModel>, i: int, n: int)
    requires
        0 <= i <= n,
        heads_to(l, i) is Err,
    ensures
        heads_to(l, n) == heads_to(l, i),
    decreases n,
{
    if i < n {
        lemma_heads_stay_wrong(l, i, n - 1);
    }
}

fn read_heads(items: &Vec<Value>) -> (r: Result<Vec<PatchHead>, ToolError>)
    ensures
        match r {
            Ok(v) => heads_to(views(items@), items@.len() as int) == Ok::<_, ToolErrorModel>(
                views(v@),
            ) && v@.len() == items@.len(),
            Err(e) => heads_to(views(items@), items@.len() as int) == Err::<
                Seq<PatchHeadModel>,
                _,
            >(e@),
        },
{
    let ghost all = views(items@);
    let mut out: Vec<PatchHead> = Vec::new();
    assert(views(out@) =~= Seq::empty());
    let mut i: usize = 0;
    while i < items.len()
        invariant
            i <= items.len(),
            all == views(items@),
            out@.len() == i,
            heads_to(all, i as int) == Ok::<_, ToolErrorModel>(views(out@)),
        decreases items.len() - i,
    {
        assert(all[i as int] == items@[i as int]@);
        match read_head(&items[i]) {
            Ok(h) => {
                proof {
                    lemma_views_push(out@, h);
                }
                out.push(h);
            },
            Err(e) => {
                proof {
                    lemma_heads_stay_wrong(all, i + 1, all.len() as int);
                }
                return Err(e);
            },
        }
        i += 1;
    }
    Ok(out)
}

fn stage_one<R: MemoryRepository>(repo: &R, args: &Value, h: &PatchHead, budget: &Budget) -> (r: (
    Stage,
    Ghost<Answer<Option<DocViewModel>>>,
))
    ensures
        repo.get_rel(h@.id, r.1@),
        r.0@ == stage(args@, h@, r.1@, *budget),
{
    let got = repo.get(&h.id);
    let ghost a = crate::repo::opt_answer(got);
    let s = match got {
        Err(e) => Stage::Refused(item_error_value(&e)),
        Ok(None) => Stage::Refused(kind_value("not_found", no_document(&h.id).as_str())),
        Ok(Some(d)) => match patch_document(args, &d, budget) {
            Err(e) => Stage::Refused(refusal_value(&e)),
            Ok(markdown) => Stage::Ready(
                CommitRequest {
                    concept_id: h.id.clone(),
                    expected: Some(h.expected),
                    markdown,
                    reason: h.reason.clone(),
                },
            ),
        },
    };
    (s, Ghost(a))
}

fn stage_all<R: MemoryRepository>(
    repo: &R,
    items: &Vec<Value>,
    heads: &Vec<PatchHead>,
    budget: &Budget,
) -> (r: (Vec<Stage>, Ghost<Seq<Answer<Option<DocViewModel>>>>))
    requires
        heads@.len() == items@.len(),
    ensures
        looked_up(*repo, views(heads@), r.1@),
        views(r.0@) == stages(views(items@), views(heads@), r.1@, *budget),
{
    let mut out: Vec<Stage> = Vec::new();
    let ghost mut gs: Seq<Answer<Option<DocViewModel>>> = Seq::empty();
    let mut i: usize = 0;
    while i < items.len()
        invariant
            i <= items.len(),
            heads@.len() == items@.len(),
            out@.len() == i,
            gs.len() == i,
            forall|k: int| 0 <= k < i ==> repo.get_rel(views(heads@)[k].id, #[trigger] gs[k]),
            forall|k: int|
                0 <= k < i ==> (#[trigger] out@[k])@ == stage(
                    items@[k]@,
                    heads@[k]@,
                    gs[k],
                    *budget,
                ),
        decreases items.len() - i,
    {
        let (s, Ghost(a)) = stage_one(repo, &items[i], &heads[i], budget);
        out.push(s);
        proof {
            assert(views(heads@)[i as int] == heads@[i as int]@);
            gs = gs.push(a);
        }
        i += 1;
    }
    assert(views(out@) =~= stages(views(items@), views(heads@), gs, *budget));
    (out, Ghost(gs))
}

fn any_refused(st: &Vec<Stage>) -> (r: bool)
    ensures
        r == some_refused(views(st@)),
{
    let mut i: usize = 0;
    while i < st.len()
        invariant
            i <= st.len(),
            forall|k: int| 0 <= k < i ==> !((#[trigger] views(st@)[k]) is Refused),
        decreases st.len() - i,
    {
        assert(views(st@)[i as int] == st@[i as int]@);
        match &st[i] {
            Stage::Refused(_) => {
                return true;
            },
            Stage::Ready(_) => {},
        }
        i += 1;
    }
    false
}

fn hold_back(st: Vec<Stage>) -> (r: Value)
    ensures
        r@ == JsonModel::Array(held_back(views(st@))),
{
    let mut out: Vec<Value> = Vec::new();
    let mut i: usize = 0;
    while i < st.len()
        invariant
            i <= st.len(),
            out@.len() == i,
            forall|k: int| 0 <= k < i ==> (#[trigger] out@[k])@ == held_back(views(st@))[k],
        decreases st.len() - i,
    {
        assert(views(st@)[i as int] == st@[i as int]@);
        let v = match &st[i] {
            Stage::Refused(e) => failed_item_value(e.dup()),
            Stage::Ready(_) => skipped_item_value(),
        };
        out.push(v);
        i += 1;
    }
    assert(views(out@) =~= held_back(views(st@)));
    arr(out)
}

fn ready_requests(st: &Vec<Stage>) -> (r: Vec<CommitRequest>)
    ensures
        views(r@) == ready_to(views(st@), st@.len() as int),
{
    let mut out: Vec<CommitRequest> = Vec::new();
    assert(views(out@) =~= Seq::empty());
    let mut i: usize = 0;
    while i < st.len()
        invariant
            i <= st.len(),
            views(out@) == ready_to(views(st@), i as int),
        decreases st.len() - i,
    {
        assert(views(st@)[i as int] == st@[i as int]@);
        match &st[i] {
            Stage::Refused(_) => {},
            Stage::Ready(q) => {
                let q = q.clone();
                proof {
                    lemma_views_push(out@, q);
                }
                out.push(q);
            },
        }
        i += 1;
    }
    out
}

fn merge(st: &Vec<Stage>, items: &Vec<BulkItem>) -> (r: Value)
    ensures
        r@ == JsonModel::Array(merged(views(st@), views(items@))),
{
    let ghost all = views(st@);
    let ghost got = views(items@);
    let mut out: Vec<Value> = Vec::new();
    let mut k: usize = 0;
    let mut i: usize = 0;
    while i < st.len()
        invariant
            i <= st.len(),
            all == views(st@),
            got == views(items@),
            k <= i,
            k == ready_to(all, i as int).len(),
            out@.len() == i,
            forall|j: int| 0 <= j < i ==> (#[trigger] out@[j])@ == merged(all, got)[j],
        decreases st.len() - i,
    {
        assert(all[i as int] == st@[i as int]@);
        let v = match &st[i] {
            Stage::Refused(e) => failed_item_value(e.dup()),
            Stage::Ready(_) => {
                let at = k;
                k += 1;
                if at < items.len() {
                    assert(got[at as int] == items@[at as int]@);
                    items[at].to_value()
                } else {
                    skipped_item_value()
                }
            },
        };
        out.push(v);
        i += 1;
    }
    assert(views(out@) =~= merged(all, got));
    arr(out)
}

pub fn memory_bulk_patch<R: MemoryRepository>(
    repo: &mut R,
    args: &Value,
    actor: &Principal,
    budget: &Budget,
) -> (r: Result<Value, ToolError>)
    ensures
        bulk_patch_tool(*old(repo), actor@, *budget, args@, *final(repo), res_view(r)),
{
    let items = match arg_list(args, "patches") {
        None => {
            return Err(invalid_arguments("falta el argumento 'patches' (array)"));
        },
        Some(l) => l,
    };
    let heads = match read_heads(items) {
        Ok(h) => h,
        Err(e) => {
            return Err(e);
        },
    };
    let ghost hs = views(heads@);
    assert(heads_arg(args@) == Ok::<_, ToolErrorModel>(hs));
    let atomic = arg_flag(args, "atomic", true);
    let (st, Ghost(gs)) = stage_all(&*repo, items, &heads, budget);
    let ghost l = views(items@);
    let ghost sts = stages(l, hs, gs, *budget);
    assert(looked_up(*old(repo), hs, gs));
    if atomic && any_refused(&st) {
        let r = Ok(batch_value(false, hold_back(st)));
        assert(staged_batch(*old(repo), actor@, *budget, atomic, sts, *repo, res_view(r)));
        assert(batch_staged(*old(repo), actor@, *budget, atomic, l, hs, *repo, res_view(r)));
        return r;
    }
    let outcome = repo.commit_bulk(ready_requests(&st), atomic, actor, budget);
    let ghost a = res_view(outcome);
    assert(R::bulk_rel(
        *old(repo),
        ready_to(sts, sts.len() as int),
        atomic,
        actor@,
        *budget,
        *repo,
        a,
    ));
    let r = match outcome {
        Ok(x) => Ok(batch_value(x.applied, merge(&st, &x.items))),
        Err(e) => Err(domain_error(e)),
    };
    assert(batch_patched(*old(repo), actor@, *budget, atomic, sts, *repo, res_view(r)));
    assert(batch_staged(*old(repo), actor@, *budget, atomic, l, hs, *repo, res_view(r)));
    r
}

} // verus!
