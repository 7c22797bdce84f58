//! Request options of the full-checkpoint endpoint, and the query parameters
//! of the transaction endpoints.

use vstd::prelude::*;

verus! {

/// Selects which parts of a full checkpoint a response carries; every part
/// defaults to excluded.
pub struct GetFullCheckpointOptions {
    pub summary: Option<bool>,
    pub summary_bcs: Option<bool>,
    pub signature: Option<bool>,
    pub contents: Option<bool>,
    pub contents_bcs: Option<bool>,
    pub transaction: Option<bool>,
    pub transaction_bcs: Option<bool>,
    pub effects: Option<bool>,
    pub effects_bcs: Option<bool>,
    pub events: Option<bool>,
    pub events_bcs: Option<bool>,
    pub input_objects: Option<bool>,
    pub output_objects: Option<bool>,
    pub object: Option<bool>,
    pub object_bcs: Option<bool>,
}

/// An optional flag defaulting to `false`.
pub open spec fn flag_set(o: Option<bool>) -> bool {
    o == Some(true)
}

impl Default for GetFullCheckpointOptions {
    fn default() -> (r: Self)
        ensures
            r.summary is None,
            r.summary_bcs is None,
            r.signature is None,
            r.contents is None,
            r.contents_bcs is None,
            r.transaction is None,
            r.transaction_bcs is None,
            r.effects is None,
            r.effects_bcs is None,
            r.events is None,
            r.events_bcs is None,
            r.input_objects is None,
            r.output_objects is None,
            r.object is None,
            r.object_bcs is None,
    {
        GetFullCheckpointOptions {
            summary: None,
            summary_bcs: None,
            signature: None,
            contents: None,
            contents_bcs: None,
            transaction: None,
            transaction_bcs: None,
            effects: None,
            effects_bcs: None,
            events: None,
            events_bcs: None,
            input_objects: None,
            output_objects: None,
            object: None,
            object_bcs: None,
        }
    }
}

impl GetFullCheckpointOptions {
    pub fn include_summary(&self) -> (r: bool)
        ensures
            r == flag_set(self.summary),
    {
        self.summary.unwrap_or(false)
    }

    pub fn include_summary_bcs(&self) -> (r: bool)
        ensures
            r == flag_set(self.summary_bcs),
    {
        self.summary_bcs.unwrap_or(false)
    }

    pub fn include_signature(&self) -> (r: bool)
        ensures
            r == flag_set(self.signature),
    {
        self.signature.unwrap_or(false)
    }

    pub fn include_contents(&self) -> (r: bool)
        ensures
            r == flag_set(self.contents),
    {
        self.contents.unwrap_or(false)
    }

    pub fn include_contents_bcs(&self) -> (r: bool)
        ensures
            r == flag_set(self.contents_bcs),
    {
        self.contents_bcs.unwrap_or(false)
    }

    pub fn include_transaction(&self) -> (r: bool)
        ensures
            r == flag_set(self.transaction),
    {
        self.transaction.unwrap_or(false)
    }

    pub fn include_transaction_bcs(&self) -> (r: bool)
        ensures
            r == flag_set(self.transaction_bcs),
    {
        self.transaction_bcs.unwrap_or(false)
    }

    pub fn include_effects(&self) -> (r: bool)
        ensures
            r == flag_set(self.effects),
    {
        self.effects.unwrap_or(false)
    }

    pub fn include_effects_bcs(&self) -> (r: bool)
        ensures
            r == flag_set(self.effects_bcs),
    {
        self.effects_bcs.unwrap_or(false)
    }

    pub fn include_events(&self) -> (r: bool)
        ensures
            r == flag_set(self.events),
    {
        self.events.unwrap_or(false)
    }

    pub fn include_events_bcs(&self) -> (r: bool)
        ensures
            r == flag_set(self.events_bcs),
    {
        self.events_bcs.unwrap_or(false)
    }

    pub fn include_input_objects(&self) -> (r: bool)
        ensures
            r == flag_set(self.input_objects),
    {
        self.input_objects.unwrap_or(false)
    }

    pub fn include_output_objects(&self) -> (r: bool)
        ensures
            r == flag_set(self.output_objects),
    {
        self.output_objects.unwrap_or(false)
    }

    pub fn include_object(&self) -> (r: bool)
        ensures
            r == flag_set(self.object),
    {
        self.object.unwrap_or(false)
    }

    pub fn include_object_bcs(&self) -> (r: bool)
        ensures
            r == flag_set(self.object_bcs),
    {
        self.object_bcs.unwrap_or(false)
    }

    /// Whether any per-transaction information was requested.
    pub fn include_any_transaction_info(&self) -> (r: bool)
        ensures
            r == (flag_set(self.transaction) || flag_set(self.transaction_bcs) || flag_set(
                self.effects,
            ) || flag_set(self.effects_bcs) || flag_set(self.events) || flag_set(self.events_bcs)
                || flag_set(self.input_objects) || flag_set(self.output_objects)),
    {
        self.include_transaction() || self.include_transaction_bcs() || self.include_effects()
            || self.include_effects_bcs() || self.include_events() || self.include_events_bcs()
            || self.include_input_objects() || self.include_output_objects()
    }

    /// Options with every part requested.
    pub fn all() -> (r: Self)
        ensures
            r.summary == Some(true),
            r.summary_bcs == Some(true),
            r.signature == Some(true),
            r.contents == Some(true),
            r.contents_bcs == Some(true),
            r.transaction == Some(true),
            r.transaction_bcs == Some(true),
            r.effects == Some(true),
            r.effects_bcs == Some(true),
            r.events == Some(true),
            r.events_bcs == Some(true),
            r.input_objects == Some(true),
            r.output_objects == Some(true),
            r.object == Some(true),
            r.object_bcs == Some(true),
    {
        GetFullCheckpointOptions {
            summary: Some(true),
            summary_bcs: Some(true),
            signature: Some(true),
            contents: Some(true),
            contents_bcs: Some(true),
            transaction: Some(true),
            transaction_bcs: Some(true),
            effects: Some(true),
            effects_bcs: Some(true),
            events: Some(true),
            events_bcs: Some(true),
            input_objects: Some(true),
            output_objects: Some(true),
            object: Some(true),
            object_bcs: Some(true),
        }
    }
}

/// One path of a read mask applied to the options: the recognized field
/// paths request their parts; anything else is ignored.
pub open spec fn apply_read_mask_path(
    o: GetFullCheckpointOptions,
    path: Seq<char>,
) -> GetFullCheckpointOptions {
    if path == "summary"@ {
        GetFullCheckpointOptions { summary: Some(true), ..o }
    } else if path == "summary_bcs"@ {
        GetFullCheckpointOptions { summary_bcs: Some(true), ..o }
    } else if path == "signature"@ {
        GetFullCheckpointOptions { signature: Some(true), ..o }
    } else if path == "contents"@ {
        GetFullCheckpointOptions { contents: Some(true), ..o }
    } else if path == "contents_bcs"@ {
        GetFullCheckpointOptions { contents_bcs: Some(true), ..o }
    } else if path == "transactions"@ {
        GetFullCheckpointOptions {
            transaction: Some(true),
            transaction_bcs: Some(true),
            effects: Some(true),
            effects_bcs: Some(true),
            events: Some(true),
            events_bcs: Some(true),
            input_objects: Some(true),
            output_objects: Some(true),
            object: Some(true),
            object_bcs: Some(true),
            ..o
        }
    } else if path == "transactions.transaction"@ {
        GetFullCheckpointOptions { transaction: Some(true), ..o }
    } else if path == "transactions.transaction_bcs"@ {
        GetFullCheckpointOptions { transaction_bcs: Some(true), ..o }
    } else if path == "transactions.effects"@ {
        GetFullCheckpointOptions { effects: Some(true), ..o }
    } else if path == "transactions.effects_bcs"@ {
        GetFullCheckpointOptions { effects_bcs: Some(true), ..o }
    } else if path == "transactions.events"@ {
        GetFullCheckpointOptions { events: Some(true), ..o }
    } else if path == "transactions.events_bcs"@ {
        GetFullCheckpointOptions { events_bcs: Some(true), ..o }
    } else if path == "transactions.input_objects.object"@ {
        GetFullCheckpointOptions { input_objects: Some(true), object: Some(true), ..o }
    } else if path == "transactions.input_objects.object_bcs"@ {
        GetFullCheckpointOptions { input_objects: Some(true), object_bcs: Some(true), ..o }
    } else if path == "transactions.output_objects.object"@ {
        GetFullCheckpointOptions { output_objects: Some(true), object: Some(true), ..o }
    } else if path == "transactions.output_objects.object_bcs"@ {
        GetFullCheckpointOptions { output_objects: Some(true), object_bcs: Some(true), ..o }
    } else {
        o
    }
}

/// The paths of a read mask applied in order.
pub open spec fn apply_read_mask(
    o: GetFullCheckpointOptions,
    paths: Seq<Seq<char>>,
) -> GetFullCheckpointOptions
    decreases paths.len(),
{
    if paths.len() == 0 {
        o
    } else {
        apply_read_mask(apply_read_mask_path(o, paths.first()), paths.drop_first())
    }
}

/// The options with nothing requested.
pub open spec fn options_none() -> GetFullCheckpointOptions {
    GetFullCheckpointOptions {
        summary: None,
        summary_bcs: None,
        signature: None,
        contents: None,
        contents_bcs: None,
        transaction: None,
        transaction_bcs: None,
        effects: None,
        effects_bcs: None,
        events: None,
        events_bcs: None,
        input_objects: None,
        output_objects: None,
        object: None,
        object_bcs: None,
    }
}

/// Applying one more path at the end folds on top of the prefix.
proof fn lemma_apply_read_mask_push(
    o: GetFullCheckpointOptions,
    paths: Seq<Seq<char>>,
    x: Seq<char>,
)
    ensures
        apply_read_mask(o, paths.push(x)) == apply_read_mask_path(apply_read_mask(o, paths), x),
    decreases paths.len(),
{
    if paths.len() == 0 {
        assert(paths.push(x).first() == x);
        assert(paths.push(x).drop_first() =~= Seq::<Seq<char>>::empty());
    } else {
        assert(paths.push(x).first() == paths.first());
        assert(paths.push(x).drop_first() =~= paths.drop_first().push(x));
        lemma_apply_read_mask_push(apply_read_mask_path(o, paths.first()), paths.drop_first(), x);
    }
}

impl GetFullCheckpointOptions {
    /// Whether `p` spells exactly `lit`.
    fn path_is(p: &String, lit: &str) -> (r: bool)
        ensures
            r == (p@ == lit@),
    {
        p.eq(&lit.to_owned())
    }

    /// Build the options from a read mask, modeled by its list of field
    /// paths: each recognized path requests the matching parts, unknown
    /// paths are ignored.
    pub fn from_read_mask(read_mask: Vec<String>) -> (r: Self)
        ensures
            r == apply_read_mask(
                options_none(),
                read_mask@.map_values(|p: String| p@),
            ),
    {
        let ghost paths = read_mask@.map_values(|p: String| p@);
        let mut options = Self::default();
        proof {
            assert(paths.take(0) =~= Seq::<Seq<char>>::empty());
            assert(options == options_none());
        }
        let mut i: usize = 0;
        let n = read_mask.len();
        while i < n
            invariant
                0 <= i <= n,
                n == read_mask@.len(),
                paths == read_mask@.map_values(|p: String| p@),
                options == apply_read_mask(options_none(), paths.take(i as int)),
            decreases n - i,
        {
            let ghost pre = options;
            let path = &read_mask[i];
            if Self::path_is(path, "summary") {
                options.summary = Some(true);
            } else if Self::path_is(path, "summary_bcs") {
                options.summary_bcs = Some(true);
            } else if Self::path_is(path, "signature") {
                options.signature = Some(true);
            } else if Self::path_is(path, "contents") {
                options.contents = Some(true);
            } else if Self::path_is(path, "contents_bcs") {
                options.contents_bcs = Some(true);
            } else if Self::path_is(path, "transactions") {
                options.transaction = Some(true);
                options.transaction_bcs = Some(true);
                options.effects = Some(true);
                options.effects_bcs = Some(true);
                options.events = Some(true);
                options.events_bcs = Some(true);
                options.input_objects = Some(true);
                options.output_objects = Some(true);
                options.object = Some(true);
                options.object_bcs = Some(true);
            } else if Self::path_is(path, "transactions.transaction") {
                options.transaction = Some(true);
            } else if Self::path_is(path, "transactions.transaction_bcs") {
                options.transaction_bcs = Some(true);
            } else if Self::path_is(path, "transactions.effects") {
                options.effects = Some(true);
            } else if Self::path_is(path, "transactions.effects_bcs") {
                options.effects_bcs = Some(true);
            } else if Self::path_is(path, "transactions.events") {
                options.events = Some(true);
            } else if Self::path_is(path, "transactions.events_bcs") {
                options.events_bcs = Some(true);
            } else if Self::path_is(path, "transactions.input_objects.object") {
                options.input_objects = Some(true);
                options.object = Some(true);
            } else if Self::path_is(path, "transactions.input_objects.object_bcs") {
                options.input_objects = Some(true);
                options.object_bcs = Some(true);
            } else if Self::path_is(path, "transactions.output_objects.object") {
                options.output_objects = Some(true);
                options.object = Some(true);
            } else if Self::path_is(path, "transactions.output_objects.object_bcs") {
                options.output_objects = Some(true);
                options.object_bcs = Some(true);
            }
            proof {
                assert(options == apply_read_mask_path(pre, paths[i as int]));
                lemma_apply_read_mask_push(options_none(), paths.take(i as int), paths[i as int]);
                assert(paths.take(i as int).push(paths[i as int]) =~= paths.take(i + 1));
            }
            i = i + 1;
        }
        proof {
            assert(paths.take(n as int) =~= paths);
        }
        options
    }
}

/// Query parameters of the simulate-transaction endpoint.
pub struct SimulateTransactionQueryParameters {
    pub balance_changes: bool,
    pub input_objects: bool,
    pub output_objects: bool,
}

impl Default for SimulateTransactionQueryParameters {
    fn default() -> (r: Self)
        ensures
            !r.balance_changes,
            !r.input_objects,
            !r.output_objects,
    {
        SimulateTransactionQueryParameters {
            balance_changes: false,
            input_objects: false,
            output_objects: false,
        }
    }
}

/// Query parameters of the resolve-transaction endpoint.
pub struct ResolveTransactionQueryParameters {
    pub simulate: bool,
    pub simulate_transaction_parameters: SimulateTransactionQueryParameters,
}

impl Default for ResolveTransactionQueryParameters {
    fn default() -> (r: Self)
        ensures
            !r.simulate,
            !r.simulate_transaction_parameters.balance_changes,
            !r.simulate_transaction_parameters.input_objects,
            !r.simulate_transaction_parameters.output_objects,
    {
        ResolveTransactionQueryParameters {
            simulate: false,
            simulate_transaction_parameters: SimulateTransactionQueryParameters::default(),
        }
    }
}

} // verus!
