//! State reconciler: the chat core proper.
//!
//! A `Chat` holds the roster (the current full snapshot of connected user
//! profiles) and the timeline (the append-only history of chat messages),
//! both empty at construction and owned exclusively by the core.  Inbound
//! frames are decoded and applied in arrival order: a `users` envelope
//! replaces the roster wholesale, a `message` envelope appends to the
//! timeline, anything else changes nothing.  A frame that fails to decode
//! is isolated: the core reports the error kind in the outcome and keeps
//! processing later frames, rather than tearing the session down.
//!
//! The core never performs transport work itself: construction hands back
//! the registration frame to send, and a submit hands back the outbound
//! message frame, so the host can attempt the send and the core's state
//! does not depend on whether it succeeded.

use vstd::prelude::*;

use crate::codec;
use crate::codec::ChatMessage;
use crate::codec::ChatMessageView;
use crate::codec::DecodeError;
use crate::codec::Envelope;
use crate::codec::EnvelopeView;
use crate::codec::bytes_seq_view;
use crate::codec::decode;
use crate::codec::enc_env;
use crate::codec::encode;
use crate::codec::sp_decode;

verus! {

// ---------------------------------------------------------------------------
// Profiles and avatars
// ---------------------------------------------------------------------------

/// The fixed first part of every avatar address.
pub open spec fn avatar_prefix() -> Seq<u8> {
    seq![
        0x68, 0x74, 0x74, 0x70, 0x73, 0x3a, 0x2f, 0x2f, 0x61, 0x76, 0x61, 0x74, 0x61, 0x72,
        0x73, 0x2e, 0x64, 0x69, 0x63, 0x65, 0x62, 0x65, 0x61, 0x72, 0x2e, 0x63, 0x6f, 0x6d,
        0x2f, 0x61, 0x70, 0x69, 0x2f, 0x61, 0x64, 0x76, 0x65, 0x6e, 0x74, 0x75, 0x72, 0x65,
        0x72, 0x2d, 0x6e, 0x65, 0x75, 0x74, 0x72, 0x61, 0x6c, 0x2f,
    ]
}

/// The fixed last part of every avatar address.
pub open spec fn avatar_suffix() -> Seq<u8> {
    seq![0x2e, 0x73, 0x76, 0x67]
}

/// The avatar address of a display name: a fixed template with the name
/// spliced in, a pure function of the name alone.
pub open spec fn avatar_of(name: Seq<u8>) -> Seq<u8> {
    avatar_prefix() + name + avatar_suffix()
}

/// One roster entry: a display name and the avatar derived from it.
#[derive(Debug, PartialEq, Eq)]
pub struct UserProfile {
    pub name: Vec<u8>,
    pub avatar: Vec<u8>,
}

/// Mathematical model of a `UserProfile`.
#[verifier::ext_equal]
pub struct UserProfileView {
    pub name: Seq<u8>,
    pub avatar: Seq<u8>,
}

impl View for UserProfile {
    type V = UserProfileView;

    open spec fn view(&self) -> UserProfileView {
        UserProfileView { name: self.name@, avatar: self.avatar@ }
    }
}

/// The views of a sequence of profiles.
pub open spec fn profiles_view(s: Seq<UserProfile>) -> Seq<UserProfileView> {
    s.map_values(|p: UserProfile| p@)
}

/// The views of a sequence of chat messages.
pub open spec fn messages_view(s: Seq<ChatMessage>) -> Seq<ChatMessageView> {
    s.map_values(|m: ChatMessage| m@)
}

/// The profile freshly computed for a name.
pub open spec fn sp_profile_of(name: Seq<u8>) -> UserProfileView {
    UserProfileView { name: name, avatar: avatar_of(name) }
}

/// The roster built from a name sequence: one profile per name, in order,
/// duplicates kept.
pub open spec fn sp_roster_of(names: Seq<Seq<u8>>) -> Seq<UserProfileView> {
    names.map_values(|n: Seq<u8>| sp_profile_of(n))
}

/// Roster replacement: the roster built from a name sequence has exactly
/// one profile per name, in the same order, each carrying the avatar
/// derived from its own name.
pub proof fn lemma_roster_replacement(names: Seq<Seq<u8>>)
    ensures
        sp_roster_of(names).len() == names.len(),
        forall|i: int|
            0 <= i < names.len() ==> sp_roster_of(names)[i].name == names[i] && sp_roster_of(
                names,
            )[i].avatar == avatar_of(names[i]),
{
}

/// The avatar address of a name, as `avatar_of` defines it.
pub fn make_avatar(name: &Vec<u8>) -> (r: Vec<u8>)
    ensures
        r@ == avatar_of(name@),
{
    let mut out: Vec<u8> = Vec::new();
    out.push(0x68);
    out.push(0x74);
    out.push(0x74);
    out.push(0x70);
    out.push(0x73);
    out.push(0x3a);
    out.push(0x2f);
    out.push(0x2f);
    out.push(0x61);
    out.push(0x76);
    out.push(0x61);
    out.push(0x74);
    out.push(0x61);
    out.push(0x72);
    out.push(0x73);
    out.push(0x2e);
    out.push(0x64);
    out.push(0x69);
    out.push(0x63);
    out.push(0x65);
    out.push(0x62);
    out.push(0x65);
    out.push(0x61);
    out.push(0x72);
    out.push(0x2e);
    out.push(0x63);
    out.push(0x6f);
    out.push(0x6d);
    out.push(0x2f);
    out.push(0x61);
    out.push(0x70);
    out.push(0x69);
    out.push(0x2f);
    out.push(0x61);
    out.push(0x64);
    out.push(0x76);
    out.push(0x65);
    out.push(0x6e);
    out.push(0x74);
    out.push(0x75);
    out.push(0x72);
    out.push(0x65);
    out.push(0x72);
    out.push(0x2d);
    out.push(0x6e);
    out.push(0x65);
    out.push(0x75);
    out.push(0x74);
    out.push(0x72);
    out.push(0x61);
    out.push(0x6c);
    out.push(0x2f);
    proof {
        assert(out@ =~= avatar_prefix());
    }
    let mut k: usize = 0;
    while k < name.len()
        invariant
            k <= name@.len(),
            out@ == avatar_prefix() + name@.take(k as int),
        decreases name@.len() - k,
    {
        out.push(name[k]);
        proof {
            assert(avatar_prefix() + name@.take(k + 1) =~= (avatar_prefix() + name@.take(
                k as int,
            )).push(name@[k as int]));
        }
        k = k + 1;
    }
    proof {
        assert(name@.take(name@.len() as int) =~= name@);
    }
    out.push(0x2e);
    out.push(0x73);
    out.push(0x76);
    out.push(0x67);
    proof {
        assert(out@ =~= avatar_of(name@));
    }
    out
}

// ---------------------------------------------------------------------------
// Media classification and rendering
// ---------------------------------------------------------------------------

/// The `.gif` suffix bytes.
pub open spec fn gif_suffix() -> Seq<u8> {
    seq![0x2e, 0x67, 0x69, 0x66]
}

/// Whether message text names media: exactly when it ends in `.gif`.
pub open spec fn ends_gif(s: Seq<u8>) -> bool {
    s.len() >= 4 && s.skip(s.len() - 4) == gif_suffix()
}

/// Media classification: a message is media exactly when its text ends in
/// `.gif`, a pure function of the text alone.
pub fn is_media(m: &ChatMessage) -> (r: bool)
    ensures
        r == ends_gif(m@.message),
{
    let n = m.message.len();
    if n < 4 {
        return false;
    }
    let b0 = m.message[n - 4];
    let b1 = m.message[n - 3];
    let b2 = m.message[n - 2];
    let b3 = m.message[n - 1];
    let r = b0 == 0x2e && b1 == 0x67 && b2 == 0x69 && b3 == 0x66;
    proof {
        let s = m.message@;
        assert(s.skip(s.len() - 4) =~= seq![
            s[s.len() - 4],
            s[s.len() - 3],
            s[s.len() - 2],
            s[s.len() - 1],
        ]);
        if r {
            assert(s.skip(s.len() - 4) =~= gif_suffix());
        } else {
            assert(s.skip(s.len() - 4) != gif_suffix());
        }
    }
    r
}

/// One entry of the rendered view: the sender, the avatar looked up for
/// the sender, the text, and whether it renders as media.
#[derive(Debug, PartialEq, Eq)]
pub struct RenderedMessage {
    pub from: Vec<u8>,
    pub avatar: Vec<u8>,
    pub message: Vec<u8>,
    pub media: bool,
}

/// Mathematical model of a `RenderedMessage`.
#[verifier::ext_equal]
pub struct RenderedMessageView {
    pub from: Seq<u8>,
    pub avatar: Seq<u8>,
    pub message: Seq<u8>,
    pub media: bool,
}

impl View for RenderedMessage {
    type V = RenderedMessageView;

    open spec fn view(&self) -> RenderedMessageView {
        RenderedMessageView {
            from: self.from@,
            avatar: self.avatar@,
            message: self.message@,
            media: self.media,
        }
    }
}

/// The views of a sequence of rendered entries.
pub open spec fn rendered_view(s: Seq<RenderedMessage>) -> Seq<RenderedMessageView> {
    s.map_values(|r: RenderedMessage| r@)
}

/// The first roster profile whose name matches, if any.
pub open spec fn find_profile(roster: Seq<UserProfileView>, name: Seq<u8>) -> Option<
    UserProfileView,
>
    decreases roster.len(),
{
    if roster.len() == 0 {
        None
    } else if roster[0].name == name {
        Some(roster[0])
    } else {
        find_profile(roster.drop_first(), name)
    }
}

/// How one timeline entry renders against a profile.
pub open spec fn render_entry(m: ChatMessageView, p: UserProfileView) -> RenderedMessageView {
    RenderedMessageView {
        from: m.from,
        avatar: p.avatar,
        message: m.message,
        media: ends_gif(m.message),
    }
}

/// The rendered view of a timeline against a roster: each entry whose
/// sender has a matching profile renders with that profile; an entry
/// without one is left out entirely.
pub open spec fn sp_render(roster: Seq<UserProfileView>, tl: Seq<ChatMessageView>) -> Seq<
    RenderedMessageView,
>
    decreases tl.len(),
{
    if tl.len() == 0 {
        Seq::empty()
    } else {
        match find_profile(roster, tl[0].from) {
            Some(p) => seq![render_entry(tl[0], p)] + sp_render(roster, tl.drop_first()),
            None => sp_render(roster, tl.drop_first()),
        }
    }
}

/// Rendering distributes over appending timelines.
proof fn lemma_render_append(
    roster: Seq<UserProfileView>,
    a: Seq<ChatMessageView>,
    b: Seq<ChatMessageView>,
)
    ensures
        sp_render(roster, a + b) == sp_render(roster, a) + sp_render(roster, b),
    decreases a.len(),
{
    if a.len() == 0 {
        assert(a + b =~= b);
        assert(sp_render(roster, a) + sp_render(roster, b) =~= sp_render(roster, b));
    } else {
        assert((a + b)[0] == a[0]);
        assert((a + b).drop_first() =~= a.drop_first() + b);
        lemma_render_append(roster, a.drop_first(), b);
        match find_profile(roster, a[0].from) {
            Some(p) => {
                assert(seq![render_entry(a[0], p)] + (sp_render(roster, a.drop_first())
                    + sp_render(roster, b)) =~= (seq![render_entry(a[0], p)] + sp_render(
                    roster,
                    a.drop_first(),
                )) + sp_render(roster, b));
            },
            None => {},
        }
    }
}

/// Visibility gating: appending a timeline entry whose sender has a
/// matching profile appends its rendered entry; appending one whose
/// sender has none leaves the rendered view unchanged, even though the
/// entry stays in the timeline.
pub proof fn lemma_visibility_gating(
    roster: Seq<UserProfileView>,
    tl: Seq<ChatMessageView>,
    m: ChatMessageView,
)
    ensures
        match find_profile(roster, m.from) {
            Some(p) => sp_render(roster, tl.push(m)) == sp_render(roster, tl).push(
                render_entry(m, p),
            ),
            None => sp_render(roster, tl.push(m)) == sp_render(roster, tl),
        },
{
    assert(tl.push(m) =~= tl + seq![m]);
    lemma_render_append(roster, tl, seq![m]);
    assert(seq![m].drop_first() =~= Seq::<ChatMessageView>::empty());
    assert(seq![m][0] == m);
    assert(sp_render(roster, Seq::<ChatMessageView>::empty()) == Seq::<
        RenderedMessageView,
    >::empty());
    match find_profile(roster, m.from) {
        Some(p) => {
            assert(sp_render(roster, seq![m]) =~= seq![render_entry(m, p)]);
            assert(sp_render(roster, tl) + seq![render_entry(m, p)] =~= sp_render(
                roster,
                tl,
            ).push(render_entry(m, p)));
        },
        None => {
            assert(sp_render(roster, seq![m]) =~= Seq::<RenderedMessageView>::empty());
            assert(sp_render(roster, tl) + Seq::<RenderedMessageView>::empty() =~= sp_render(
                roster,
                tl,
            ));
        },
    }
}

// ---------------------------------------------------------------------------
// The state machine
// ---------------------------------------------------------------------------

/// How one decoded envelope moves the state: the new roster, the new
/// timeline, and whether the presentation layer must re-render.
pub open spec fn sp_step(
    roster: Seq<UserProfileView>,
    tl: Seq<ChatMessageView>,
    e: EnvelopeView,
) -> (Seq<UserProfileView>, Seq<ChatMessageView>, bool) {
    match e {
        EnvelopeView::Users(xs) => (sp_roster_of(xs), tl, true),
        EnvelopeView::Message(m) => (roster, tl.push(m), true),
        EnvelopeView::Register(_) => (roster, tl, false),
        EnvelopeView::Other => (roster, tl, false),
    }
}

/// The state after a sequence of decoded envelopes, applied in order.
pub open spec fn sp_steps(
    roster: Seq<UserProfileView>,
    tl: Seq<ChatMessageView>,
    es: Seq<EnvelopeView>,
) -> (Seq<UserProfileView>, Seq<ChatMessageView>)
    decreases es.len(),
{
    if es.len() == 0 {
        (roster, tl)
    } else {
        let st = sp_step(roster, tl, es[0]);
        sp_steps(st.0, st.1, es.drop_first())
    }
}

/// Timeline monotonicity: processing any sequence of `message` envelopes
/// in order appends exactly their payloads to the timeline, in the same
/// order, with no drops, no reordering and no deduplication, and leaves
/// the roster alone.
pub proof fn lemma_timeline_monotonic(
    roster: Seq<UserProfileView>,
    tl: Seq<ChatMessageView>,
    ms: Seq<ChatMessageView>,
)
    ensures
        sp_steps(roster, tl, ms.map_values(|m: ChatMessageView| EnvelopeView::Message(m))).0
            == roster,
        sp_steps(roster, tl, ms.map_values(|m: ChatMessageView| EnvelopeView::Message(m))).1 == tl
            + ms,
    decreases ms.len(),
{
    let es = ms.map_values(|m: ChatMessageView| EnvelopeView::Message(m));
    if ms.len() == 0 {
        assert(tl + ms =~= tl);
    } else {
        assert(es[0] == EnvelopeView::Message(ms[0]));
        assert(es.drop_first() =~= ms.drop_first().map_values(
            |m: ChatMessageView| EnvelopeView::Message(m),
        ));
        lemma_timeline_monotonic(roster, tl.push(ms[0]), ms.drop_first());
        assert(tl.push(ms[0]) + ms.drop_first() =~= tl + ms);
    }
}

/// Well-formedness carries over to an equal roster.
proof fn lemma_wf_transfer(a: Seq<UserProfileView>, b: Seq<UserProfileView>)
    requires
        a == b,
        forall|i: int| 0 <= i < a.len() ==> a[i].avatar == avatar_of(a[i].name),
    ensures
        forall|i: int| 0 <= i < b.len() ==> b[i].avatar == avatar_of(b[i].name),
{
    assert forall|i: int| 0 <= i < b.len() implies b[i].avatar == avatar_of(b[i].name) by {
        assert(a[i] == b[i]);
        assert(a[i].avatar == avatar_of(a[i].name));
    }
}

/// The phases of the core: `Unregistered` before the handshake,
/// `Registered` once the registration frame has been produced at
/// construction, `Active` once any inbound frame has been processed.
#[derive(Clone, Copy, Debug, PartialEq, Eq, Structural)]
pub enum Phase {
    Unregistered,
    Registered,
    Active,
}

/// The immutable identity a core instance acts under, injected once by
/// the host at construction.
#[derive(Debug)]
pub struct Session {
    pub username: Vec<u8>,
}

/// What the core is asked to do: apply one inbound frame, or submit the
/// current input as an outbound message.
#[derive(Debug)]
pub enum Msg {
    HandleMsg(Vec<u8>),
    SubmitMessage,
}

/// What one update did: whether observers must re-render, the frame to
/// send if the update produced one, and the decode error if the inbound
/// frame was rejected.
#[derive(Debug)]
pub struct UpdateOutcome {
    pub changed: bool,
    pub outbound: Option<Vec<u8>>,
    pub error: Option<DecodeError>,
}

/// The chat core: session identity, roster, timeline, and the model of
/// the text entry field.
#[derive(Debug)]
pub struct Chat {
    session: Session,
    users: Vec<UserProfile>,
    messages: Vec<ChatMessage>,
    chat_input: Vec<u8>,
    phase: Phase,
}

impl Chat {
    /// The current roster, as a mathematical sequence of profiles.
    pub closed spec fn roster(&self) -> Seq<UserProfileView> {
        profiles_view(self.users@)
    }

    /// The current timeline, as a mathematical sequence of messages.
    pub closed spec fn timeline(&self) -> Seq<ChatMessageView> {
        messages_view(self.messages@)
    }

    /// The current content of the text entry field.
    pub closed spec fn input_view(&self) -> Seq<u8> {
        self.chat_input@
    }

    /// The session's display name.
    pub closed spec fn username_view(&self) -> Seq<u8> {
        self.session.username@
    }

    /// The current phase.
    pub closed spec fn phase_of(&self) -> Phase {
        self.phase
    }

    /// Well-formedness: every roster entry carries the avatar derived
    /// from its own name.
    pub open spec fn wf(&self) -> bool {
        forall|i: int|
            0 <= i < self.roster().len() ==> self.roster()[i].avatar == avatar_of(
                self.roster()[i].name,
            )
    }

    /// Builds a core for a session: roster, timeline and input start
    /// empty, and the registration envelope carrying the session's name
    /// is produced at once, before any other traffic, moving the core to
    /// `Registered`.  The host must send that frame first.
    pub fn new(session: Session) -> (r: (Chat, Vec<u8>))
        ensures
            r.0.wf(),
            r.0.roster() == Seq::<UserProfileView>::empty(),
            r.0.timeline() == Seq::<ChatMessageView>::empty(),
            r.0.input_view() == Seq::<u8>::empty(),
            r.0.username_view() == session.username@,
            r.0.phase_of() == Phase::Registered,
            r.1@ == enc_env(EnvelopeView::Register(session.username@)),
    {
        let reg = Envelope::Register(codec::clone_bytes(&session.username));
        let frame = encode(&reg);
        let core = Chat {
            session,
            users: Vec::new(),
            messages: Vec::new(),
            chat_input: Vec::new(),
            phase: Phase::Registered,
        };
        proof {
            assert(core.roster() =~= Seq::<UserProfileView>::empty());
            assert(core.timeline() =~= Seq::<ChatMessageView>::empty());
        }
        (core, frame)
    }

    /// The current roster entries.
    pub fn users(&self) -> (r: &Vec<UserProfile>)
        ensures
            profiles_view(r@) == self.roster(),
    {
        &self.users
    }

    /// The current timeline entries.
    pub fn messages(&self) -> (r: &Vec<ChatMessage>)
        ensures
            messages_view(r@) == self.timeline(),
    {
        &self.messages
    }

    /// The current content of the text entry field.
    pub fn chat_input(&self) -> (r: &Vec<u8>)
        ensures
            r@ == self.input_view(),
    {
        &self.chat_input
    }

    /// The current phase.
    pub fn phase(&self) -> (r: Phase)
        ensures
            r == self.phase_of(),
    {
        self.phase
    }

    /// Replaces the content of the text entry field, touching nothing
    /// else.
    pub fn set_input(&mut self, text: Vec<u8>)
        ensures
            final(self).input_view() == text@,
            final(self).roster() == old(self).roster(),
            final(self).timeline() == old(self).timeline(),
            final(self).username_view() == old(self).username_view(),
            final(self).phase_of() == old(self).phase_of(),
            old(self).wf() ==> final(self).wf(),
    {
        self.chat_input = text;
    }

    /// Applies one request to the core.
    ///
    /// For an inbound frame, the frame is decoded and applied as
    /// `sp_step` describes — a `users` envelope replaces the roster, a
    /// `message` envelope appends to the timeline, a `register` or
    /// unknown envelope changes nothing — and the core is `Active` from
    /// then on.  A frame that fails to decode changes no state and
    /// reports its error kind in the outcome, isolating the bad frame.
    ///
    /// For a submit, the current input is wrapped as a chat payload from
    /// this session's name, the encoded envelope is handed back to send,
    /// and the input field is cleared unconditionally — whether or not
    /// the host's send later succeeds.
    #[verifier::rlimit(60)]
    pub fn update(&mut self, msg: Msg) -> (r: UpdateOutcome)
        requires
            old(self).wf(),
        ensures
            final(self).wf(),
            final(self).username_view() == old(self).username_view(),
            match msg {
                Msg::HandleMsg(frame) => {
                    &&& r.outbound is None
                    &&& final(self).input_view() == old(self).input_view()
                    &&& final(self).phase_of() == Phase::Active
                    &&& match sp_decode(frame@) {
                        Ok(e) => {
                            &&& r.error is None
                            &&& final(self).roster() == sp_step(
                                old(self).roster(),
                                old(self).timeline(),
                                e,
                            ).0
                            &&& final(self).timeline() == sp_step(
                                old(self).roster(),
                                old(self).timeline(),
                                e,
                            ).1
                            &&& r.changed == sp_step(
                                old(self).roster(),
                                old(self).timeline(),
                                e,
                            ).2
                        },
                        Err(k) => {
                            &&& r.error == Some(k)
                            &&& !r.changed
                            &&& final(self).roster() == old(self).roster()
                            &&& final(self).timeline() == old(self).timeline()
                        },
                    }
                },
                Msg::SubmitMessage => {
                    &&& r.error is None
                    &&& !r.changed
                    &&& final(self).roster() == old(self).roster()
                    &&& final(self).timeline() == old(self).timeline()
                    &&& final(self).phase_of() == old(self).phase_of()
                    &&& final(self).input_view() == Seq::<u8>::empty()
                    &&& match r.outbound {
                        Some(f) => f@ == enc_env(
                            EnvelopeView::Message(
                                (ChatMessageView {
                                    from: old(self).username_view(),
                                    message: old(self).input_view(),
                                }),
                            ),
                        ),
                        None => false,
                    }
                },
            },
    {
        match msg {
            Msg::HandleMsg(frame) => {
                self.phase = Phase::Active;
                match decode(&frame) {
                    Ok(env) => match env {
                        Envelope::Users(xs) => {
                            let ghost names: Seq<Seq<u8>> = bytes_seq_view(xs@);
                            let mut roster: Vec<UserProfile> = Vec::new();
                            let mut k: usize = 0;
                            proof {
                                assert(profiles_view(roster@) =~= sp_roster_of(names.take(0)));
                            }
                            while k < xs.len()
                                invariant
                                    k <= xs@.len(),
                                    names == bytes_seq_view(xs@),
                                    names.len() == xs@.len(),
                                    profiles_view(roster@) == sp_roster_of(names.take(k as int)),
                                decreases xs@.len() - k,
                            {
                                let name = codec::clone_bytes(&xs[k]);
                                let avatar = make_avatar(&xs[k]);
                                roster.push(UserProfile { name, avatar });
                                proof {
                                    assert(names[k as int] == xs@[k as int]@);
                                    assert(names.take(k + 1) =~= names.take(k as int).push(
                                        names[k as int],
                                    ));
                                    assert(sp_roster_of(names.take(k + 1)) =~= sp_roster_of(
                                        names.take(k as int),
                                    ).push(sp_profile_of(names[k as int])));
                                    assert(profiles_view(roster@) =~= sp_roster_of(
                                        names.take(k + 1),
                                    ));
                                }
                                k = k + 1;
                            }
                            proof {
                                assert(names.take(names.len() as int) =~= names);
                            }
                            self.users = roster;
                            proof {
                                lemma_roster_replacement(names);
                                assert(self.roster() == sp_roster_of(names));
                                assert forall|i: int|
                                    0 <= i < self.roster().len() implies self.roster()[i].avatar
                                    == avatar_of(self.roster()[i].name) by {
                                    assert(self.roster()[i] == sp_roster_of(names)[i]);
                                }
                                assert(self.wf());
                            }
                            UpdateOutcome { changed: true, outbound: None, error: None }
                        },
                        Envelope::Message(m) => {
                            self.messages.push(m);
                            proof {
                                assert(messages_view(self.messages@) =~= messages_view(
                                    old(self).messages@,
                                ).push(m@));
                            }
                            proof {
                                lemma_wf_transfer(old(self).roster(), self.roster());
                                assert(self.wf());
                            }
                            UpdateOutcome { changed: true, outbound: None, error: None }
                        },
                        Envelope::Register(_) => {
                            proof {
                                lemma_wf_transfer(old(self).roster(), self.roster());
                                assert(self.wf());
                            }
                            UpdateOutcome { changed: false, outbound: None, error: None }
                        },
                        Envelope::Other => {
                            proof {
                                lemma_wf_transfer(old(self).roster(), self.roster());
                                assert(self.wf());
                            }
                            UpdateOutcome { changed: false, outbound: None, error: None }
                        },
                    },
                    Err(k) => {
                        proof {
                            lemma_wf_transfer(old(self).roster(), self.roster());
                            assert(self.wf());
                        }
                        UpdateOutcome { changed: false, outbound: None, error: Some(k) }
                    },
                }
            },
            Msg::SubmitMessage => {
                let payload = ChatMessage {
                    from: codec::clone_bytes(&self.session.username),
                    message: codec::clone_bytes(&self.chat_input),
                };
                let env = Envelope::Message(payload);
                let frame = encode(&env);
                self.chat_input = Vec::new();
                proof {
                    lemma_wf_transfer(old(self).roster(), self.roster());
                    assert(self.wf());
                }
                UpdateOutcome { changed: false, outbound: Some(frame), error: None }
            },
        }
    }

    /// The rendered view of the current state, as `sp_render` defines
    /// it: one entry per visible timeline message, in timeline order.
    pub fn rendered(&self) -> (r: Vec<RenderedMessage>)
        ensures
            rendered_view(r@) == sp_render(self.roster(), self.timeline()),
    {
        let mut out: Vec<RenderedMessage> = Vec::new();
        let mut k: usize = 0;
        let ghost roster: Seq<UserProfileView> = self.roster();
        let ghost tl: Seq<ChatMessageView> = self.timeline();
        proof {
            assert(rendered_view(out@) =~= sp_render(roster, tl.take(0)));
        }
        while k < self.messages.len()
            invariant
                k <= self.messages@.len(),
                roster == self.roster(),
                tl == self.timeline(),
                tl.len() == self.messages@.len(),
                rendered_view(out@) == sp_render(roster, tl.take(k as int)),
            decreases self.messages@.len() - k,
        {
            let m = &self.messages[k];
            proof {
                assert(tl[k as int] == m@);
                assert(tl.take(k + 1) =~= tl.take(k as int).push(tl[k as int]));
                lemma_visibility_gating(roster, tl.take(k as int), m@);
            }
            match find_profile_at(&self.users, &m.from) {
                Some(ix) => {
                    let p = &self.users[ix];
                    let media = is_media(m);
                    let entry = RenderedMessage {
                        from: codec::clone_bytes(&m.from),
                        avatar: codec::clone_bytes(&p.avatar),
                        message: codec::clone_bytes(&m.message),
                        media,
                    };
                    out.push(entry);
                    proof {
                        assert(rendered_view(out@) =~= sp_render(roster, tl.take(k + 1)));
                    }
                },
                None => {
                    proof {
                        assert(rendered_view(out@) =~= sp_render(roster, tl.take(k + 1)));
                    }
                },
            }
            k = k + 1;
        }
        proof {
            assert(tl.take(tl.len() as int) =~= tl);
        }
        out
    }
}

/// Finds the index of the first profile carrying `name`, as
/// `find_profile` does.
#[verifier::loop_isolation(false)]
fn find_profile_at(users: &Vec<UserProfile>, name: &Vec<u8>) -> (r: Option<usize>)
    ensures
        match r {
            Some(ix) => ix < users@.len() && find_profile(profiles_view(users@), name@) == Some(
                users@[ix as int]@,
            ),
            None => find_profile(profiles_view(users@), name@) is None,
        },
{
    let mut k: usize = 0;
    proof {
        assert(profiles_view(users@).skip(0) =~= profiles_view(users@));
    }
    while k < users.len()
        invariant
            k <= users@.len(),
            find_profile(profiles_view(users@), name@) == find_profile(
                profiles_view(users@).skip(k as int),
                name@,
            ),
        decreases users@.len() - k,
    {
        let p = &users[k];
        let hit = crate::codec::bytes_eq(&p.name, name);
        proof {
            assert(profiles_view(users@).skip(k as int)[0] == profiles_view(users@)[k as int]);
            assert(profiles_view(users@)[k as int] == users@[k as int]@);
            assert(profiles_view(users@).skip(k as int).drop_first() =~= profiles_view(
                users@,
            ).skip(k + 1));
        }
        if hit {
            return Some(k);
        }
        k = k + 1;
    }
    proof {
        assert(profiles_view(users@).skip(users@.len() as int) =~= Seq::<UserProfileView>::empty());
    }
    None
}

} // verus!
