//! The steps of a sync: encode both layers, then push each in an exchange of
//! its own and pin its tip.
//!
//! The `code` chain rides thin deltas, the `extra` chain is sent whole. A tip is
//! pinned right after its own push, so that the pin of `code` survives a later
//! failure of `extra`.

use vstd::prelude::*;

use crate::encode::{CodeLayerStats, EncodeError, EncodeOutcome, ExtraLayerStats, ExtraOutcome};
use crate::protocol::{
    code_ref, code_ref_of, extra_ref, extra_ref_of, sent_extra_ref, sent_extra_ref_of, sent_ref,
    sent_ref_of, ProtocolError, StreamId,
};
use crate::push::{DeltaPolicy, PushError, PushWire};
use crate::stream::StreamResolveError;

verus! {

/// The `code` layer's part of a sync.
#[derive(Debug)]
pub struct CodeLayer {
    /// The size of what was encoded.
    pub stats: CodeLayerStats,
    /// What the push cost on the wire.
    pub wire: PushWire,
    /// The commit that was pushed.
    pub commit: String,
    /// The tree of that commit.
    pub tree: String,
}

/// The `extra` layer's part of a sync.
#[derive(Debug)]
pub struct ExtraLayer {
    /// The size of what was encoded.
    pub stats: ExtraLayerStats,
    /// What the push cost on the wire.
    pub wire: PushWire,
    /// The commit that was pushed.
    pub commit: String,
    /// The tree of that commit.
    pub tree: String,
}

/// The record of a completed sync.
#[derive(Debug)]
pub struct SyncSummary {
    /// The stream that was synced.
    pub stream: StreamId,
    /// The server that it was pushed to.
    pub remote: String,
    /// The committed history and the changes of the working tree.
    pub code: CodeLayer,
    /// The force-included files.
    pub extra: ExtraLayer,
}

/// The reason that a sync failed.
#[derive(Debug)]
pub enum ClientError {
    /// A protocol error.
    Protocol(ProtocolError),
    /// The stream id could not be resolved or stored.
    Stream(StreamResolveError),
    /// Encoding failed.
    Encode(EncodeError),
    /// Pushing failed.
    Push(PushError),
}

impl ClientError {
    /// The text of [`ClientError::message`].
    pub open spec fn text(self) -> Seq<char> {
        match self {
            ClientError::Protocol(ProtocolError::Protocol(what)) => "protocol error: "@ + what@,
            ClientError::Stream(e) => e.text(),
            ClientError::Encode(e) => e.text(),
            ClientError::Push(e) => e.text(),
        }
    }

    /// What the error says.
    pub fn message(&self) -> (r: String)
        ensures
            r@ == self.text(),
    {
        match self {
            ClientError::Protocol(e) => e.message(),
            ClientError::Stream(e) => e.message(),
            ClientError::Encode(e) => e.message(),
            ClientError::Push(e) => e.message(),
        }
    }
}

/// Where a sync is.
#[derive(Debug, Clone, Copy, PartialEq, Eq, Structural)]
pub enum SyncStep {
    /// The `code` layer is to be encoded.
    EncodeCode,
    /// The `extra` layer is to be encoded.
    EncodeExtra,
    /// The `code` ref is to be pushed.
    PushCode,
    /// The pushed `code` tip is to be pinned.
    RetainCode,
    /// The `extra` ref is to be pushed.
    PushExtra,
    /// The pushed `extra` tip is to be pinned.
    RetainExtra,
    /// The sync is done.
    Done,
    /// A step failed.
    Failed,
}

/// What a sync does next.
#[derive(Debug)]
pub enum SyncAction {
    /// Encode the `code` layer under this ref.
    EncodeCode {
        /// The ref.
        ref_name: String,
    },
    /// Encode the `extra` layer under this ref, on top of the commit that
    /// another ref pins, if it exists.
    EncodeExtra {
        /// The ref.
        ref_name: String,
        /// The ref that pins the parent.
        parent_ref: String,
    },
    /// Push this ref.
    Push {
        /// The ref.
        ref_name: String,
        /// How objects are deltified.
        policy: DeltaPolicy,
    },
    /// Pin a commit that was pushed.
    Retain {
        /// The ref that pins it.
        sent_ref: String,
        /// The commit.
        commit: String,
    },
    /// Record the summary.
    Finish,
    /// Give up.
    Stop,
}

/// How a step ended.
#[derive(Debug)]
pub enum SyncEvent {
    /// The `code` layer was encoded.
    CodeEncoded(EncodeOutcome),
    /// The `extra` layer was encoded.
    ExtraEncoded(ExtraOutcome),
    /// A ref was pushed.
    Pushed(PushWire),
    /// A tip was pinned.
    Retained,
    /// A layer could not be encoded.
    EncodeFailed(EncodeError),
    /// A ref could not be pushed, or its tip not be pinned.
    PushFailed(PushError),
}

/// The error that a step ended in, if it failed.
pub open spec fn error_of(event: SyncEvent) -> Option<ClientError> {
    match event {
        SyncEvent::EncodeFailed(e) => Some(ClientError::Encode(e)),
        SyncEvent::PushFailed(e) => Some(ClientError::Push(e)),
        _ => None,
    }
}

/// Whether a step can end in this way.
pub open spec fn fits(step: SyncStep, event: SyncEvent) -> bool {
    match step {
        SyncStep::EncodeCode => event is CodeEncoded || event is EncodeFailed,
        SyncStep::EncodeExtra => event is ExtraEncoded || event is EncodeFailed,
        SyncStep::PushCode => event is Pushed || event is PushFailed,
        SyncStep::RetainCode => event is Retained || event is PushFailed,
        SyncStep::PushExtra => event is Pushed || event is PushFailed,
        SyncStep::RetainExtra => event is Retained || event is PushFailed,
        SyncStep::Done => false,
        SyncStep::Failed => false,
    }
}

/// The step that follows one that ended in this way.
pub open spec fn after(step: SyncStep, event: SyncEvent) -> SyncStep {
    if error_of(event) is Some {
        SyncStep::Failed
    } else {
        match step {
            SyncStep::EncodeCode => SyncStep::EncodeExtra,
            SyncStep::EncodeExtra => SyncStep::PushCode,
            SyncStep::PushCode => SyncStep::RetainCode,
            SyncStep::RetainCode => SyncStep::PushExtra,
            SyncStep::PushExtra => SyncStep::RetainExtra,
            SyncStep::RetainExtra => SyncStep::Done,
            SyncStep::Done => SyncStep::Done,
            SyncStep::Failed => SyncStep::Failed,
        }
    }
}

/// The ref that a step writes or pushes, if it does either.
pub open spec fn target_of(step: SyncStep, stream: Seq<char>) -> Option<Seq<char>> {
    match step {
        SyncStep::EncodeCode => Some(code_ref_of(stream)),
        SyncStep::EncodeExtra => Some(extra_ref_of(stream)),
        SyncStep::PushCode => Some(code_ref_of(stream)),
        SyncStep::RetainCode => Some(sent_ref_of(stream)),
        SyncStep::PushExtra => Some(extra_ref_of(stream)),
        SyncStep::RetainExtra => Some(sent_extra_ref_of(stream)),
        SyncStep::Done => None,
        SyncStep::Failed => None,
    }
}

/// How a step sends objects, if it sends any.
pub open spec fn policy_of(step: SyncStep) -> Option<DeltaPolicy> {
    match step {
        SyncStep::PushCode => Some(DeltaPolicy::Thin),
        SyncStep::PushExtra => Some(DeltaPolicy::WholeObject),
        _ => None,
    }
}

/// The ref that an action writes or pushes, if it does either.
pub open spec fn target_in(action: SyncAction) -> Option<Seq<char>> {
    match action {
        SyncAction::EncodeCode { ref_name } => Some(ref_name@),
        SyncAction::EncodeExtra { ref_name, .. } => Some(ref_name@),
        SyncAction::Push { ref_name, .. } => Some(ref_name@),
        SyncAction::Retain { sent_ref, .. } => Some(sent_ref@),
        SyncAction::Finish => None,
        SyncAction::Stop => None,
    }
}

/// How an action sends objects, if it sends any.
pub open spec fn policy_in(action: SyncAction) -> Option<DeltaPolicy> {
    match action {
        SyncAction::Push { policy, .. } => Some(policy),
        _ => None,
    }
}

/// What is known of a layer at some step.
pub struct LayerView {
    pub commit: Seq<char>,
    pub tree: Seq<char>,
    pub wire: PushWire,
}

/// The ref that pins what a step builds on, if it builds on anything.
pub open spec fn parent_of(step: SyncStep, stream: Seq<char>) -> Option<Seq<char>> {
    match step {
        SyncStep::EncodeExtra => Some(sent_extra_ref_of(stream)),
        _ => None,
    }
}

/// The ref that pins what an action builds on, if it builds on anything.
pub open spec fn parent_in(action: SyncAction) -> Option<Seq<char>> {
    match action {
        SyncAction::EncodeExtra { parent_ref, .. } => Some(parent_ref@),
        _ => None,
    }
}

/// The commit that a step pins, if it pins one.
pub open spec fn pinned_of(
    step: SyncStep,
    code: Option<LayerView>,
    extra: Option<LayerView>,
) -> Option<Seq<char>> {
    match step {
        SyncStep::RetainCode => Some(code->0.commit),
        SyncStep::RetainExtra => Some(extra->0.commit),
        _ => None,
    }
}

/// The commit that an action pins, if it pins one.
pub open spec fn pinned_in(action: SyncAction) -> Option<Seq<char>> {
    match action {
        SyncAction::Retain { commit, .. } => Some(commit@),
        _ => None,
    }
}

/// Decides the steps of a sync: [`Sync::action`] says what to do, and
/// [`Sync::on_event`] takes how it ended.
pub struct Sync {
    stream: StreamId,
    remote: String,
    step: SyncStep,
    code: Option<CodeLayer>,
    extra: Option<ExtraLayer>,
    failure: Option<ClientError>,
}

impl Sync {
    /// The stream that is synced.
    pub closed spec fn stream(self) -> Seq<char> {
        self.stream@
    }

    /// The server.
    pub closed spec fn remote(self) -> Seq<char> {
        self.remote@
    }

    /// Where the sync is.
    pub closed spec fn step(self) -> SyncStep {
        self.step
    }

    /// What is known of the `code` layer.
    pub closed spec fn code(self) -> Option<LayerView> {
        match self.code {
            Some(layer) => Some(
                LayerView { commit: layer.commit@, tree: layer.tree@, wire: layer.wire },
            ),
            None => None,
        }
    }

    /// The sizes of the `code` layer.
    pub closed spec fn code_stats(self) -> CodeLayerStats {
        self.code->0.stats
    }

    /// What is known of the `extra` layer.
    pub closed spec fn extra(self) -> Option<LayerView> {
        match self.extra {
            Some(layer) => Some(
                LayerView { commit: layer.commit@, tree: layer.tree@, wire: layer.wire },
            ),
            None => None,
        }
    }

    /// The sizes of the `extra` layer.
    pub closed spec fn extra_stats(self) -> ExtraLayerStats {
        self.extra->0.stats
    }

    /// The error that ended the sync, if one did.
    pub closed spec fn failure(self) -> Option<ClientError> {
        self.failure
    }

    #[verifier::type_invariant]
    spec fn well_formed(self) -> bool {
        &&& self.step == SyncStep::Failed <==> self.failure is Some
        &&& self.step != SyncStep::EncodeCode && self.step != SyncStep::Failed ==> self.code is Some
        &&& self.step != SyncStep::EncodeCode && self.step != SyncStep::EncodeExtra && self.step
            != SyncStep::Failed ==> self.extra is Some
    }

    /// A sync that has yet to do anything.
    pub fn new(stream: StreamId, remote: String) -> (r: Self)
        ensures
            r.stream() == stream@,
            r.remote() == remote@,
            r.step() == SyncStep::EncodeCode,
            r.code() is None,
            r.extra() is None,
            r.failure() is None,
    {
        Sync { stream, remote, step: SyncStep::EncodeCode, code: None, extra: None, failure: None }
    }

    /// What to do next.
    pub fn action(&self) -> (r: SyncAction)
        ensures
            match self.step() {
                SyncStep::EncodeCode => r matches SyncAction::EncodeCode { ref_name } && ref_name@
                    == code_ref_of(self.stream()),
                SyncStep::EncodeExtra => r matches SyncAction::EncodeExtra { ref_name, parent_ref }
                    && ref_name@ == extra_ref_of(self.stream()) && parent_ref@
                    == sent_extra_ref_of(self.stream()),
                SyncStep::PushCode => r matches SyncAction::Push { ref_name, policy } && ref_name@
                    == code_ref_of(self.stream()) && policy == DeltaPolicy::Thin,
                SyncStep::RetainCode => r matches SyncAction::Retain { sent_ref, commit }
                    && sent_ref@ == sent_ref_of(self.stream()) && self.code() is Some && commit@
                    == self.code()->0.commit,
                SyncStep::PushExtra => r matches SyncAction::Push { ref_name, policy } && ref_name@
                    == extra_ref_of(self.stream()) && policy == DeltaPolicy::WholeObject,
                SyncStep::RetainExtra => r matches SyncAction::Retain { sent_ref, commit }
                    && sent_ref@ == sent_extra_ref_of(self.stream()) && self.extra() is Some
                    && commit@ == self.extra()->0.commit,
                SyncStep::Done => r is Finish,
                SyncStep::Failed => r is Stop,
            },
            target_in(r) == target_of(self.step(), self.stream()),
            policy_in(r) == policy_of(self.step()),
            parent_in(r) == parent_of(self.step(), self.stream()),
            pinned_in(r) == pinned_of(self.step(), self.code(), self.extra()),
    {
        proof {
            use_type_invariant(self);
        }
        match self.step {
            SyncStep::EncodeCode => SyncAction::EncodeCode { ref_name: code_ref(&self.stream) },
            SyncStep::EncodeExtra => SyncAction::EncodeExtra {
                ref_name: extra_ref(&self.stream),
                parent_ref: sent_extra_ref(&self.stream),
            },
            SyncStep::PushCode => SyncAction::Push {
                ref_name: code_ref(&self.stream),
                policy: DeltaPolicy::Thin,
            },
            SyncStep::RetainCode => match &self.code {
                Some(layer) => SyncAction::Retain {
                    sent_ref: sent_ref(&self.stream),
                    commit: layer.commit.clone(),
                },
                None => SyncAction::Stop,
            },
            SyncStep::PushExtra => SyncAction::Push {
                ref_name: extra_ref(&self.stream),
                policy: DeltaPolicy::WholeObject,
            },
            SyncStep::RetainExtra => match &self.extra {
                Some(layer) => SyncAction::Retain {
                    sent_ref: sent_extra_ref(&self.stream),
                    commit: layer.commit.clone(),
                },
                None => SyncAction::Stop,
            },
            SyncStep::Done => SyncAction::Finish,
            SyncStep::Failed => SyncAction::Stop,
        }
    }

    /// The sync after the step ended with `event`.
    pub fn on_event(self, event: SyncEvent) -> (r: Self)
        requires
            fits(self.step(), event),
        ensures
            r.stream() == self.stream(),
            r.remote() == self.remote(),
            r.step() == after(self.step(), event),
            r.failure() == error_of(event),
            match event {
                SyncEvent::CodeEncoded(outcome) => r.code() matches Some(layer) && layer.commit
                    == outcome.commit@ && layer.tree == outcome.tree@ && r.code_stats()
                    == outcome.stats && r.extra() == self.extra(),
                SyncEvent::ExtraEncoded(outcome) => r.extra() matches Some(layer) && layer.commit
                    == outcome.commit@ && layer.tree == outcome.tree@ && r.extra_stats()
                    == outcome.stats && r.code() == self.code() && r.code_stats()
                    == self.code_stats(),
                SyncEvent::Pushed(wire) => if self.step() == SyncStep::PushCode {
                    r.code() == Some(LayerView { wire, ..self.code()->0 }) && r.extra()
                        == self.extra()
                } else {
                    r.extra() == Some(LayerView { wire, ..self.extra()->0 }) && r.code()
                        == self.code()
                },
                _ => r.code() == self.code() && r.extra() == self.extra(),
            },
            event is Pushed || event is Retained ==> r.code_stats() == self.code_stats()
                && r.extra_stats() == self.extra_stats(),
    {
        proof {
            use_type_invariant(&self);
        }
        let Sync { stream, remote, step, code, extra, failure: _ } = self;
        match event {
            SyncEvent::CodeEncoded(outcome) => {
                let EncodeOutcome { commit, tree, code_ref: _, stats } = outcome;
                Sync {
                    stream,
                    remote,
                    step: SyncStep::EncodeExtra,
                    code: Some(CodeLayer { stats, wire: PushWire::default(), commit, tree }),
                    extra,
                    failure: None,
                }
            },
            SyncEvent::ExtraEncoded(outcome) => {
                let ExtraOutcome { commit, tree, extra_ref: _, stats } = outcome;
                Sync {
                    stream,
                    remote,
                    step: SyncStep::PushCode,
                    code,
                    extra: Some(ExtraLayer { stats, wire: PushWire::default(), commit, tree }),
                    failure: None,
                }
            },
            SyncEvent::Pushed(wire) => {
                if step == SyncStep::PushCode {
                    let code = match code {
                        Some(layer) => Some(CodeLayer { wire, ..layer }),
                        None => None,
                    };
                    Sync { stream, remote, step: SyncStep::RetainCode, code, extra, failure: None }
                } else {
                    let extra = match extra {
                        Some(layer) => Some(ExtraLayer { wire, ..layer }),
                        None => None,
                    };
                    Sync { stream, remote, step: SyncStep::RetainExtra, code, extra, failure: None }
                }
            },
            SyncEvent::Retained => {
                let next = if step == SyncStep::RetainCode {
                    SyncStep::PushExtra
                } else {
                    SyncStep::Done
                };
                Sync { stream, remote, step: next, code, extra, failure: None }
            },
            SyncEvent::EncodeFailed(e) => Sync {
                stream,
                remote,
                step: SyncStep::Failed,
                code,
                extra,
                failure: Some(ClientError::Encode(e)),
            },
            SyncEvent::PushFailed(e) => Sync {
                stream,
                remote,
                step: SyncStep::Failed,
                code,
                extra,
                failure: Some(ClientError::Push(e)),
            },
        }
    }

    /// The record of the sync, or the error that ended it, once it is over.
    pub fn outcome(self) -> (r: Option<Result<SyncSummary, ClientError>>)
        ensures
            match r {
                Some(Ok(s)) => {
                    &&& self.step() == SyncStep::Done
                    &&& s.stream@ == self.stream()
                    &&& s.remote@ == self.remote()
                    &&& self.code() == Some(
                        LayerView {
                            commit: s.code.commit@,
                            tree: s.code.tree@,
                            wire: s.code.wire,
                        },
                    )
                    &&& s.code.stats == self.code_stats()
                    &&& self.extra() == Some(
                        LayerView {
                            commit: s.extra.commit@,
                            tree: s.extra.tree@,
                            wire: s.extra.wire,
                        },
                    )
                    &&& s.extra.stats == self.extra_stats()
                },
                Some(Err(e)) => self.step() == SyncStep::Failed && self.failure() == Some(e),
                None => self.step() != SyncStep::Done && self.step() != SyncStep::Failed,
            },
    {
        proof {
            use_type_invariant(&self);
        }
        let Sync { stream, remote, step, code, extra, failure } = self;
        match failure {
            Some(e) => return Some(Err(e)),
            None => {},
        }
        if step != SyncStep::Done {
            return None;
        }
        match (code, extra) {
            (Some(code), Some(extra)) => Some(Ok(SyncSummary { stream, remote, code, extra })),
            _ => None,
        }
    }
}

/// A tip is pinned only right after its own push succeeded, and a failed step
/// pins nothing.
pub proof fn law_a_tip_is_retained_only_after_its_push(step: SyncStep, event: SyncEvent)
    requires
        fits(step, event),
    ensures
        after(step, event) == SyncStep::RetainCode ==> step == SyncStep::PushCode && event is Pushed,
        after(step, event) == SyncStep::RetainExtra ==> step == SyncStep::PushExtra
            && event is Pushed,
        error_of(event) is Some ==> after(step, event) == SyncStep::Failed,
{
}

/// The pushed `code` tip is pinned before the push of `extra` begins, so that it
/// survives whatever becomes of that.
pub proof fn law_a_code_success_survives_an_extra_failure(step: SyncStep, event: SyncEvent)
    requires
        fits(step, event),
        after(step, event) == SyncStep::PushExtra,
    ensures
        step == SyncStep::RetainCode,
        event is Retained,
{
}

/// The step that a sync is at after events, from its start.
pub open spec fn step_after(events: Seq<SyncEvent>) -> SyncStep
    decreases events.len(),
{
    if events.len() == 0 {
        SyncStep::EncodeCode
    } else {
        after(step_after(events.drop_last()), events.last())
    }
}

/// Whether each of the events is one that its step can end in.
pub open spec fn is_run(events: Seq<SyncEvent>) -> bool
    decreases events.len(),
{
    events.len() == 0 || (is_run(events.drop_last()) && fits(
        step_after(events.drop_last()),
        events.last(),
    ))
}

/// A sync is done after exactly six steps that succeed: both layers are encoded
/// before anything is pushed, and each push is followed by its pin.
pub proof fn law_a_sync_has_six_steps(events: Seq<SyncEvent>)
    requires
        is_run(events),
        step_after(events) == SyncStep::Done,
    ensures
        events.len() == 6,
        events[0] is CodeEncoded,
        events[1] is ExtraEncoded,
        events[2] is Pushed,
        events[3] is Retained,
        events[4] is Pushed,
        events[5] is Retained,
{
    let e5 = events.drop_last();
    let e4 = e5.drop_last();
    let e3 = e4.drop_last();
    let e2 = e3.drop_last();
    let e1 = e2.drop_last();
    let e0 = e1.drop_last();
    assert(step_after(e5) == SyncStep::RetainExtra);
    assert(step_after(e4) == SyncStep::PushExtra);
    assert(step_after(e3) == SyncStep::RetainCode);
    assert(step_after(e2) == SyncStep::PushCode);
    assert(step_after(e1) == SyncStep::EncodeExtra);
    assert(step_after(e0) == SyncStep::EncodeCode);
    if e0.len() > 0 {
        lemma_start_is_not_reached_again(e0);
    }
    assert(is_run(e5));
    assert(is_run(e4));
    assert(is_run(e3));
    assert(is_run(e2));
    assert(is_run(e1));
    assert(events[0] == e1.last());
    assert(events[1] == e2.last());
    assert(events[2] == e3.last());
    assert(events[3] == e4.last());
    assert(events[4] == e5.last());
}

proof fn lemma_start_is_not_reached_again(events: Seq<SyncEvent>)
    requires
        events.len() > 0,
    ensures
        step_after(events) != SyncStep::EncodeCode,
{
}

/// A sync encodes and pushes each layer under its own ref of the stream, `code`
/// before `extra`, and pins each under the ref of what was sent: what is pushed is
/// what was encoded, and what is pinned is not.
pub proof fn law_each_layer_has_its_own_refs(stream: Seq<char>)
    ensures
        target_of(SyncStep::EncodeCode, stream) == Some(
            "refs/git-full-send/streams/"@ + stream + "/code"@,
        ),
        target_of(SyncStep::PushCode, stream) == target_of(SyncStep::EncodeCode, stream),
        target_of(SyncStep::EncodeExtra, stream) == Some(
            "refs/git-full-send/streams/"@ + stream + "/extra"@,
        ),
        target_of(SyncStep::PushExtra, stream) == target_of(SyncStep::EncodeExtra, stream),
        target_of(SyncStep::RetainCode, stream) == Some(
            "refs/git-full-send/streams/"@ + stream + "/sent/code"@,
        ),
        target_of(SyncStep::RetainExtra, stream) == Some(
            "refs/git-full-send/streams/"@ + stream + "/sent/extra"@,
        ),
        target_of(SyncStep::Done, stream) is None,
        target_of(SyncStep::Failed, stream) is None,
{
}

/// The `extra` layer is built on the commit that the last sync pinned, and what a
/// sync pins is the commit of the layer that it pushed last.
pub proof fn law_extra_is_built_on_what_was_pinned(
    stream: Seq<char>,
    code: LayerView,
    extra: LayerView,
)
    ensures
        parent_of(SyncStep::EncodeExtra, stream) == target_of(SyncStep::RetainExtra, stream),
        parent_of(SyncStep::EncodeCode, stream) is None,
        pinned_of(SyncStep::RetainCode, Some(code), Some(extra)) == Some(code.commit),
        pinned_of(SyncStep::RetainExtra, Some(code), Some(extra)) == Some(extra.commit),
{
}

/// The `code` chain is sent as thin deltas against what the server has, and the
/// `extra` chain as whole objects; nothing else is sent.
pub proof fn law_code_is_sent_thin_and_extra_whole(step: SyncStep)
    ensures
        policy_of(step) == Some(DeltaPolicy::Thin) <==> step == SyncStep::PushCode,
        policy_of(step) == Some(DeltaPolicy::WholeObject) <==> step == SyncStep::PushExtra,
{
}

/// A step that fails ends the sync there, with the error of that step, and a step
/// that succeeds brings it one step further: it takes six to be done.
pub proof fn law_a_failed_step_ends_a_sync(events: Seq<SyncEvent>, i: int)
    requires
        is_run(events),
    ensures
        step_after(events) == SyncStep::Failed <==> events.len() > 0 && (events.last()
            is EncodeFailed || events.last() is PushFailed),
        0 <= i < events.len() - 1 ==> !(events[i] is EncodeFailed || events[i] is PushFailed),
        step_after(events) == SyncStep::Done <==> events.len() == 6 && !(events.last()
            is EncodeFailed || events.last() is PushFailed),
        events.len() <= 6,
        events.len() > 0 ==> (error_of(events.last()) matches Some(e) ==> match events.last() {
            SyncEvent::EncodeFailed(said) => e == ClientError::Encode(said),
            SyncEvent::PushFailed(said) => e == ClientError::Push(said),
            _ => false,
        }),
        events.len() > 0 ==> (error_of(events.last()) is Some <==> step_after(events)
            == SyncStep::Failed),
{
    lemma_position(events);
    if 0 <= i < events.len() - 1 {
        lemma_prefix_is_run(events, i + 1);
        lemma_position(events.take(i + 1));
        lemma_prefix_is_run(events, i + 2);
        let more = events.take(i + 2);
        assert(more.drop_last() =~= events.take(i + 1));
        assert(events.take(i + 1).last() == events[i]);
    }
}

/// How many steps have succeeded where a sync is at this one.
spec fn position(step: SyncStep) -> int {
    match step {
        SyncStep::EncodeCode => 0,
        SyncStep::EncodeExtra => 1,
        SyncStep::PushCode => 2,
        SyncStep::RetainCode => 3,
        SyncStep::PushExtra => 4,
        SyncStep::RetainExtra => 5,
        SyncStep::Done => 6,
        SyncStep::Failed => -1,
    }
}

proof fn lemma_position(events: Seq<SyncEvent>)
    requires
        is_run(events),
    ensures
        step_after(events) == SyncStep::Failed <==> events.len() > 0 && (events.last()
            is EncodeFailed || events.last() is PushFailed),
        step_after(events) != SyncStep::Failed ==> position(step_after(events)) == events.len(),
        events.len() <= 6,
    decreases events.len(),
{
    if events.len() > 0 {
        lemma_position(events.drop_last());
    }
}

proof fn lemma_prefix_is_run(events: Seq<SyncEvent>, n: int)
    requires
        is_run(events),
        0 <= n <= events.len(),
    ensures
        is_run(events.take(n)),
    decreases events.len() - n,
{
    if n == events.len() {
        assert(events.take(n) =~= events);
    } else {
        lemma_prefix_is_run(events, n + 1);
        assert(events.take(n + 1).drop_last() =~= events.take(n));
    }
}

/// A step ends in the answer to what it asked for, and in no other, or in its own
/// kind of failure.
pub proof fn law_a_step_of_a_sync_ends_in_its_own_answer(step: SyncStep, event: SyncEvent)
    ensures
        event is CodeEncoded ==> (fits(step, event) <==> step == SyncStep::EncodeCode),
        event is ExtraEncoded ==> (fits(step, event) <==> step == SyncStep::EncodeExtra),
        event is EncodeFailed ==> (fits(step, event) <==> step == SyncStep::EncodeCode || step
            == SyncStep::EncodeExtra),
        event is Pushed ==> (fits(step, event) <==> step == SyncStep::PushCode || step
            == SyncStep::PushExtra),
        event is Retained ==> (fits(step, event) <==> step == SyncStep::RetainCode || step
            == SyncStep::RetainExtra),
        event is PushFailed ==> (fits(step, event) <==> step == SyncStep::PushCode || step
            == SyncStep::PushExtra || step == SyncStep::RetainCode || step
            == SyncStep::RetainExtra),
{
}

} // verus!
