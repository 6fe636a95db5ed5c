//! Static description of the six-step manga translation pipeline and the
//! per-node configuration edited on the workflow canvas.

use vstd::prelude::*;
use crate::sorted_map::SortedMap;

verus! {

/// A free-form JSON node parameter (`serde_json::Value`), carried opaquely.
#[verifier::external_type_specification]
#[verifier::external_body]
pub struct ExJsonValue(serde_json::Value);

/// The six steps of the pipeline, in execution order.
#[derive(Debug, Clone, Copy, PartialEq, Eq, Hash, Structural)]
pub enum StepKind {
    Detect,
    Ocr,
    Inpaint,
    Translate,
    Polish,
    Render,
}

/// Execution order of the steps.
pub open spec fn step_order() -> Seq<StepKind> {
    seq![
        StepKind::Detect,
        StepKind::Ocr,
        StepKind::Inpaint,
        StepKind::Translate,
        StepKind::Polish,
        StepKind::Render,
    ]
}

/// Position of a step in the execution order.
pub open spec fn step_index(k: StepKind) -> int {
    match k {
        StepKind::Detect => 0,
        StepKind::Ocr => 1,
        StepKind::Inpaint => 2,
        StepKind::Translate => 3,
        StepKind::Polish => 4,
        StepKind::Render => 5,
    }
}

/// All steps in execution order.
pub fn all_steps() -> (v: Vec<StepKind>)
    ensures
        v@ == step_order(),
{
    let v = vec![
        StepKind::Detect,
        StepKind::Ocr,
        StepKind::Inpaint,
        StepKind::Translate,
        StepKind::Polish,
        StepKind::Render,
    ];
    assert(v@ =~= step_order());
    v
}

pub open spec fn step_name(k: StepKind) -> Seq<char> {
    match k {
        StepKind::Detect => seq!['d', 'e', 't', 'e', 'c', 't'],
        StepKind::Ocr => seq!['o', 'c', 'r'],
        StepKind::Inpaint => seq!['i', 'n', 'p', 'a', 'i', 'n', 't'],
        StepKind::Translate => seq!['t', 'r', 'a', 'n', 's', 'l', 'a', 't', 'e'],
        StepKind::Polish => seq!['p', 'o', 'l', 'i', 's', 'h'],
        StepKind::Render => seq!['r', 'e', 'n', 'd', 'e', 'r'],
    }
}

/// Node names are non-empty lower-case ASCII words, and no two kinds share
/// one: a name read back names exactly one kind.
pub proof fn law_step_names_distinct(a: StepKind, b: StepKind)
    ensures
        step_name(a).len() > 0,
        forall|i: int| 0 <= i < step_name(a).len() ==> 'a' <= #[trigger] step_name(a)[i] && step_name(a)[i] <= 'z',
        step_name(a) == step_name(b) ==> a == b,
{
    let na = step_name(a);
    let nb = step_name(b);
    if na == nb {
        assert(na.len() == nb.len());
        assert(na[0] == nb[0]);
        if na.len() == 6 {
            assert(na[1] == nb[1]);
        }
    }
}

pub open spec fn spec_previous(k: StepKind) -> Option<StepKind> {
    if step_index(k) == 0 {
        None
    } else {
        Some(step_order()[step_index(k) - 1])
    }
}

impl StepKind {
    /// Lower-case node name used for artifacts and the UI.
    pub fn as_str(&self) -> (s: &'static str)
        ensures
            s@ == step_name(*self),
    {
        match self {
            StepKind::Detect => {
                proof { reveal_strlit("detect"); }
                "detect"
            },
            StepKind::Ocr => {
                proof { reveal_strlit("ocr"); }
                "ocr"
            },
            StepKind::Inpaint => {
                proof { reveal_strlit("inpaint"); }
                "inpaint"
            },
            StepKind::Translate => {
                proof { reveal_strlit("translate"); }
                "translate"
            },
            StepKind::Polish => {
                proof { reveal_strlit("polish"); }
                "polish"
            },
            StepKind::Render => {
                proof { reveal_strlit("render"); }
                "render"
            },
        }
    }

    /// The step that precedes this one in the default chain, if any.
    pub fn previous(&self) -> (p: Option<StepKind>)
        ensures
            p == spec_previous(*self),
    {
        match self {
            StepKind::Detect => None,
            StepKind::Ocr => Some(StepKind::Detect),
            StepKind::Inpaint => Some(StepKind::Ocr),
            StepKind::Translate => Some(StepKind::Inpaint),
            StepKind::Polish => Some(StepKind::Translate),
            StepKind::Render => Some(StepKind::Polish),
        }
    }
}

/// Each step's predecessor sits right before it in the execution order, and
/// only the first step has none.
pub proof fn lemma_chain_is_contiguous(k: StepKind)
    ensures
        step_order()[step_index(k)] == k,
        0 <= step_index(k) < 6,
        match spec_previous(k) {
            Some(p) => step_index(p) + 1 == step_index(k),
            None => step_index(k) == 0,
        },
{
}

/// User-controlled configuration for a single node.
pub struct NodeConfig {
    pub kind: StepKind,
    /// Disabled nodes are skipped: their input passes through unchanged.
    pub enabled: bool,
    /// Max automatic retries before the step is marked failed.
    pub max_retries: u32,
    /// Free-form node parameters, ordered by key.
    pub params: SortedMap<serde_json::Value>,
}

impl NodeConfig {
    /// The default node: detect, enabled, two retries, no parameters.
    pub fn default_config() -> (c: NodeConfig)
        ensures
            c.kind == StepKind::Detect,
            c.enabled,
            c.max_retries == 2,
            c.params.view() == Map::<Seq<char>, serde_json::Value>::empty(),
    {
        NodeConfig { kind: StepKind::Detect, enabled: true, max_retries: 2, params: SortedMap::new() }
    }
}

/// The pipeline graph: an ordered chain of node configurations.
pub struct PipelineGraph {
    pub configs: Vec<NodeConfig>,
}

/// `i` is the first position of a node of kind `kind`.
pub open spec fn is_first(cs: Seq<NodeConfig>, kind: StepKind, i: int) -> bool {
    &&& 0 <= i < cs.len()
    &&& cs[i].kind == kind
    &&& forall|j: int| 0 <= j < i ==> cs[j].kind != kind
}

/// Some node has kind `kind`.
pub open spec fn has_kind(cs: Seq<NodeConfig>, kind: StepKind) -> bool {
    exists|i: int| 0 <= i < cs.len() && cs[i].kind == kind
}

/// Whether a node is enabled: the first node of that kind decides, and a kind
/// absent from the graph counts as enabled.
pub open spec fn spec_is_enabled(cs: Seq<NodeConfig>, kind: StepKind) -> bool {
    if has_kind(cs, kind) {
        cs[choose|i: int| is_first(cs, kind, i)].enabled
    } else {
        true
    }
}

/// The parameter `key` of the first node of `kind`, if both exist.
pub open spec fn spec_param(cs: Seq<NodeConfig>, kind: StepKind, key: Seq<char>) -> Option<serde_json::Value> {
    if has_kind(cs, kind) {
        let c = cs[choose|i: int| is_first(cs, kind, i)];
        if c.params.view().contains_key(key) {
            Some(c.params.view()[key])
        } else {
            None
        }
    } else {
        None
    }
}

proof fn lemma_first_unique(cs: Seq<NodeConfig>, kind: StepKind, i: int, j: int)
    requires
        is_first(cs, kind, i),
        is_first(cs, kind, j),
    ensures
        i == j,
{
}

proof fn lemma_first_exists(cs: Seq<NodeConfig>, kind: StepKind)
    requires
        has_kind(cs, kind),
    ensures
        exists|i: int| is_first(cs, kind, i),
    decreases cs.len(),
{
    let w = choose|i: int| 0 <= i < cs.len() && cs[i].kind == kind;
    if exists|j: int| 0 <= j < w && cs[j].kind == kind {
        let v = choose|j: int| 0 <= j < w && cs[j].kind == kind;
        let t = cs.take(w);
        assert(t[v].kind == kind);
        lemma_first_exists(t, kind);
        let f = choose|i: int| is_first(t, kind, i);
        assert forall|j: int| 0 <= j < f implies cs[j].kind != kind by {
            assert(t[j].kind != kind);
        }
        assert(is_first(cs, kind, f));
    } else {
        assert(is_first(cs, kind, w));
    }
}

/// Two chains whose nodes have the same kinds, position by position, agree
/// on which position is the first of each kind.
proof fn lemma_same_kinds(a: Seq<NodeConfig>, b: Seq<NodeConfig>)
    requires
        a.len() == b.len(),
        forall|i: int| 0 <= i < a.len() ==> (#[trigger] a[i]).kind == b[i].kind,
    ensures
        forall|k: StepKind| #[trigger] has_kind(a, k) == has_kind(b, k),
        forall|k: StepKind, i: int| #[trigger] is_first(a, k, i) == is_first(b, k, i),
{
    assert forall|k: StepKind| #[trigger] has_kind(a, k) == has_kind(b, k) by {
        if has_kind(a, k) {
            let i = choose|i: int| 0 <= i < a.len() && a[i].kind == k;
            assert(b[i].kind == k);
        }
        if has_kind(b, k) {
            let i = choose|i: int| 0 <= i < b.len() && b[i].kind == k;
            assert(a[i].kind == k);
        }
    }
    assert forall|k: StepKind, i: int| #[trigger] is_first(a, k, i) == is_first(b, k, i) by {
        if is_first(a, k, i) {
            assert forall|j: int| 0 <= j < i implies b[j].kind != k by {
                assert(a[j].kind != k);
            }
        }
        if is_first(b, k, i) {
            assert forall|j: int| 0 <= j < i implies a[j].kind != k by {
                assert(b[j].kind != k);
            }
        }
    }
}

/// Position of the first node of `kind`.
fn find_kind(configs: &Vec<NodeConfig>, kind: StepKind) -> (r: Option<usize>)
    ensures
        match r {
            Some(i) => is_first(configs@, kind, i as int),
            None => !has_kind(configs@, kind),
        },
{
    let mut i: usize = 0;
    while i < configs.len()
        invariant
            i <= configs@.len(),
            forall|j: int| 0 <= j < i ==> configs@[j].kind != kind,
        decreases configs@.len() - i,
    {
        if configs[i].kind == kind {
            return Some(i);
        }
        i += 1;
    }
    None
}

impl PipelineGraph {
    /// The default six-node pipeline: every node enabled except polish, each
    /// with two retries and no parameters.
    pub fn default_pipeline() -> (g: PipelineGraph)
        ensures
            g.configs@.len() == 6,
            forall|i: int| 0 <= i < 6 ==> {
                &&& (#[trigger] g.configs@[i]).kind == step_order()[i]
                &&& g.configs@[i].enabled == (step_order()[i] != StepKind::Polish)
                &&& g.configs@[i].max_retries == 2
                &&& g.configs@[i].params.view() == Map::<Seq<char>, serde_json::Value>::empty()
            },
            forall|k: StepKind| #[trigger] spec_is_enabled(g.configs@, k) == (k != StepKind::Polish),
    {
        let steps = all_steps();
        let mut configs: Vec<NodeConfig> = Vec::new();
        let mut i: usize = 0;
        while i < steps.len()
            invariant
                steps@ == step_order(),
                i <= 6,
                configs@.len() == i,
                forall|j: int| 0 <= j < i ==> {
                    &&& (#[trigger] configs@[j]).kind == step_order()[j]
                    &&& configs@[j].enabled == (step_order()[j] != StepKind::Polish)
                    &&& configs@[j].max_retries == 2
                    &&& configs@[j].params.view() == Map::<Seq<char>, serde_json::Value>::empty()
                },
            decreases 6 - i,
        {
            let kind = steps[i];
            let d = NodeConfig::default_config();
            configs.push(NodeConfig {
                kind,
                enabled: !matches!(kind, StepKind::Polish),
                max_retries: d.max_retries,
                params: d.params,
            });
            i += 1;
        }
        proof {
            assert forall|k: StepKind| #[trigger] spec_is_enabled(configs@, k) == (k != StepKind::Polish) by {
                let i = step_index(k);
                assert(configs@[i].kind == k);
                assert(is_first(configs@, k, i));
                let c = choose|j: int| is_first(configs@, k, j);
                lemma_first_unique(configs@, k, i, c);
            }
        }
        PipelineGraph { configs }
    }

    pub fn is_enabled(&self, kind: StepKind) -> (b: bool)
        ensures
            b == spec_is_enabled(self.configs@, kind),
    {
        match find_kind(&self.configs, kind) {
            Some(i) => {
                proof {
                    let c = choose|j: int| is_first(self.configs@, kind, j);
                    lemma_first_unique(self.configs@, kind, i as int, c);
                }
                self.configs[i].enabled
            },
            None => true,
        }
    }

    /// Retry budget of the first node of `kind`; 0 when absent.
    pub fn max_retries(&self, kind: StepKind) -> (n: u32)
        ensures
            !has_kind(self.configs@, kind) ==> n == 0,
            forall|i: int| is_first(self.configs@, kind, i) ==> n == self.configs@[i].max_retries,
    {
        match find_kind(&self.configs, kind) {
            Some(i) => self.configs[i].max_retries,
            None => 0,
        }
    }

    /// Steps in execution order.
    pub fn steps(&self) -> (s: &[NodeConfig])
        ensures
            s@ == self.configs@,
    {
        self.configs.as_slice()
    }

    /// Toggles the first node of `kind`; `false` when the kind is absent.
    pub fn set_enabled(&mut self, kind: StepKind, enabled: bool) -> (found: bool)
        ensures
            found == has_kind(old(self).configs@, kind),
            final(self).configs@.len() == old(self).configs@.len(),
            forall|i: int| 0 <= i < old(self).configs@.len() ==> {
                &&& (#[trigger] final(self).configs@[i]).kind == old(self).configs@[i].kind
                &&& final(self).configs@[i].max_retries == old(self).configs@[i].max_retries
                &&& final(self).configs@[i].params == old(self).configs@[i].params
                &&& final(self).configs@[i].enabled == if is_first(old(self).configs@, kind, i) {
                    enabled
                } else {
                    old(self).configs@[i].enabled
                }
            },
            found ==> spec_is_enabled(final(self).configs@, kind) == enabled,
            forall|k: StepKind| k != kind ==> #[trigger] spec_is_enabled(final(self).configs@, k) == spec_is_enabled(old(self).configs@, k),
    {
        match find_kind(&self.configs, kind) {
            Some(i) => {
                let ghost before = self.configs@;
                let old_cfg = self.configs.remove(i);
                self.configs.insert(i, NodeConfig {
                    kind: old_cfg.kind,
                    enabled,
                    max_retries: old_cfg.max_retries,
                    params: old_cfg.params,
                });
                proof {
                    assert forall|j: int| 0 <= j < before.len() && j != i implies self.configs@[j] == before[j] by {
                    }
                    assert forall|j: int| 0 <= j < before.len() && is_first(before, kind, j) implies j == i by {
                        lemma_first_unique(before, kind, i as int, j);
                    }
                    lemma_same_kinds(before, self.configs@);
                    assert(is_first(self.configs@, kind, i as int));
                    let c = choose|j: int| is_first(self.configs@, kind, j);
                    lemma_first_unique(self.configs@, kind, i as int, c);
                    assert forall|k: StepKind| k != kind implies #[trigger] spec_is_enabled(self.configs@, k) == spec_is_enabled(before, k) by {
                        if has_kind(before, k) {
                            lemma_first_exists(before, k);
                            lemma_first_exists(self.configs@, k);
                            let a = choose|j: int| is_first(before, k, j);
                            let b = choose|j: int| is_first(self.configs@, k, j);
                            lemma_first_unique(self.configs@, k, a, b);
                        }
                    }
                }
                true
            },
            None => {
                proof { lemma_same_kinds(self.configs@, self.configs@); }
                false
            },
        }
    }

    /// Sets one parameter on the first node of `kind`; `false` when absent.
    pub fn set_param(&mut self, kind: StepKind, key: &str, value: serde_json::Value) -> (found: bool)
        ensures
            found == has_kind(old(self).configs@, kind),
            final(self).configs@.len() == old(self).configs@.len(),
            forall|i: int| 0 <= i < old(self).configs@.len() ==> {
                &&& (#[trigger] final(self).configs@[i]).kind == old(self).configs@[i].kind
                &&& final(self).configs@[i].enabled == old(self).configs@[i].enabled
                &&& final(self).configs@[i].max_retries == old(self).configs@[i].max_retries
                &&& final(self).configs@[i].params.view() == if is_first(old(self).configs@, kind, i) {
                    old(self).configs@[i].params.view().insert(key@, value)
                } else {
                    old(self).configs@[i].params.view()
                }
            },
            found ==> spec_param(final(self).configs@, kind, key@) == Some(value),
            forall|k: StepKind, q: Seq<char>| k != kind ==> #[trigger] spec_param(final(self).configs@, k, q) == spec_param(old(self).configs@, k, q),
    {
        match find_kind(&self.configs, kind) {
            Some(i) => {
                let ghost before = self.configs@;
                let mut cfg = self.configs.remove(i);
                cfg.params.insert(key.to_string(), value);
                self.configs.insert(i, cfg);
                proof {
                    assert forall|j: int| 0 <= j < before.len() && j != i implies self.configs@[j] == before[j] by {
                    }
                    assert forall|j: int| 0 <= j < before.len() && is_first(before, kind, j) implies j == i by {
                        lemma_first_unique(before, kind, i as int, j);
                    }
                    lemma_same_kinds(before, self.configs@);
                    assert(is_first(self.configs@, kind, i as int));
                    let c = choose|j: int| is_first(self.configs@, kind, j);
                    lemma_first_unique(self.configs@, kind, i as int, c);
                    assert forall|k: StepKind, q: Seq<char>| k != kind implies #[trigger] spec_param(self.configs@, k, q) == spec_param(before, k, q) by {
                        if has_kind(before, k) {
                            lemma_first_exists(before, k);
                            lemma_first_exists(self.configs@, k);
                            let a = choose|j: int| is_first(before, k, j);
                            let b = choose|j: int| is_first(self.configs@, k, j);
                            lemma_first_unique(self.configs@, k, a, b);
                        }
                    }
                }
                true
            },
            None => {
                proof { lemma_same_kinds(self.configs@, self.configs@); }
                false
            },
        }
    }

    /// Reads one parameter of the first node of `kind`.
    pub fn param(&self, kind: StepKind, key: &str) -> (r: Option<&serde_json::Value>)
        ensures
            !has_kind(self.configs@, kind) ==> r is None,
            forall|i: int| is_first(self.configs@, kind, i) ==> match r {
                Some(v) => self.configs@[i].params.view().contains_key(key@) && *v == self.configs@[i].params.view()[key@],
                None => !self.configs@[i].params.view().contains_key(key@),
            },
            match r {
                Some(v) => spec_param(self.configs@, kind, key@) == Some(*v),
                None => spec_param(self.configs@, kind, key@) is None,
            },
    {
        match find_kind(&self.configs, kind) {
            Some(i) => {
                proof {
                    assert forall|j: int| is_first(self.configs@, kind, j) implies j == i by {
                        lemma_first_unique(self.configs@, kind, i as int, j);
                    }
                    let c = choose|j: int| is_first(self.configs@, kind, j);
                    lemma_first_unique(self.configs@, kind, i as int, c);
                }
                self.configs[i].params.get(key)
            },
            None => None,
        }
    }
}

} // verus!

verus! {

/// What the runner does with a step after one attempt.
#[derive(Debug, Clone, Copy, PartialEq, Eq, Structural)]
pub enum AttemptVerdict {
    /// The step succeeded.
    Completed,
    /// The step failed and has retries left: run it again.
    Retry,
    /// The step failed with no retries left: the page run stops.
    Failed,
}

/// Verdict after an attempt of a step, given how many retries were already
/// spent on it: success completes the step, a failure is retried until the
/// node's `max_retries` retries are used up.
pub fn after_attempt(retries_spent: u32, max_retries: u32, ok: bool) -> (v: AttemptVerdict)
    ensures
        ok ==> v == AttemptVerdict::Completed,
        !ok && retries_spent < max_retries ==> v == AttemptVerdict::Retry,
        !ok && retries_spent >= max_retries ==> v == AttemptVerdict::Failed,
{
    if ok {
        AttemptVerdict::Completed
    } else if retries_spent < max_retries {
        AttemptVerdict::Retry
    } else {
        AttemptVerdict::Failed
    }
}

} // verus!
