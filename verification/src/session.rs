//! A session with the OpenRGB server: what to send, what the replies mean, and the client
//! that comes out of it.
use crate::bytes::{
    bytes32, bytes_have_weights, le32, numbers_are_written_low_byte_first, push32, read32,
};
use crate::config::Config;
use crate::frame::Led;
use crate::message::{controller_in, parse_controller};
use crate::openrgb::{Controller, ControllerModel};
use crate::packet::{
    leds_data, leds_packet, number_at, packet, packet_of, CLIENT_PROTOCOL_VERSION,
    REQUEST_CONTROLLER_COUNT, REQUEST_CONTROLLER_DATA, REQUEST_PROTOCOL_VERSION, SET_CLIENT_NAME,
    UPDATE_LEDS,
};
use crate::selection::{
    controller_models, select_controller, selected_controller, some_controller_is_selected,
};
use crate::text::opt_text;
use vstd::prelude::*;

verus! {

// ---------------------------------------------------------------------------
// Requests and replies
// ---------------------------------------------------------------------------
/// The number that a reply begins with, or 0 if it is too short for one.
pub open spec fn number_told(reply: Seq<u8>) -> u32 {
    if reply.len() >= 4 {
        le32(reply)
    } else {
        0
    }
}

/// The version to speak with a server that answers with the given reply.
pub open spec fn agreed_version(reply: Seq<u8>) -> u32 {
    if number_told(reply) < CLIENT_PROTOCOL_VERSION {
        number_told(reply)
    } else {
        CLIENT_PROTOCOL_VERSION
    }
}

/// The name that the server is told: `sysmon` and a zero.
pub open spec fn client_name() -> Seq<u8> {
    seq![0x73u8, 0x79u8, 0x73u8, 0x6du8, 0x6fu8, 0x6eu8, 0u8]
}

/// What is sent along with the request for a controller: the version, unless it is 0.
pub open spec fn request_data(version: u32) -> Seq<u8> {
    if version == 0 {
        Seq::empty()
    } else {
        bytes32(version as int)
    }
}

/// The number that a reply begins with.
pub fn told_number(reply: &[u8]) -> (r: u32)
    ensures
        r == number_told(reply@),
{
    if reply.len() >= 4 {
        read32(reply)
    } else {
        0
    }
}

/// The version to speak with a server that answers with the given reply.
pub fn negotiated_version(reply: &[u8]) -> (r: u32)
    ensures
        r == agreed_version(reply@),
{
    let version: u32 = told_number(reply);
    if version < CLIENT_PROTOCOL_VERSION {
        version
    } else {
        CLIENT_PROTOCOL_VERSION
    }
}

// ---------------------------------------------------------------------------
// The handshake
// ---------------------------------------------------------------------------
/// What the handshake waits for.
#[derive(Clone, Copy)]
pub enum Stage {
    /// The version of the server.
    Version,
    /// The name of the client to be sent.
    Name,
    /// The number of controllers.
    Count,
    /// The description of controller `next` of `count`.
    Controllers { count: u32, next: u32 },
    /// Nothing more.
    Done,
}

/// What to do next.
pub enum Action {
    /// Send the packet and wait for a reply.
    Exchange(Vec<u8>),
    /// Send the packet; whether that succeeds does not matter.
    Notify(Vec<u8>),
    /// Nothing more.
    Finish,
}

/// The contents of an `Action`.
pub enum ActionModel {
    Exchange(Seq<u8>),
    Notify(Seq<u8>),
    Finish,
}

impl View for Action {
    type V = ActionModel;

    open spec fn view(&self) -> ActionModel {
        match self {
            Action::Exchange(p) => ActionModel::Exchange(p@),
            Action::Notify(p) => ActionModel::Notify(p@),
            Action::Finish => ActionModel::Finish,
        }
    }
}

/// How far the handshake has come.
pub struct Handshake {
    pub stage: Stage,
    pub protocol_version: u32,
    pub controllers: Vec<Controller>,
}

/// The contents of a `Handshake`.
#[verifier::ext_equal]
pub struct HandshakeModel {
    pub stage: Stage,
    pub version: u32,
    pub controllers: Seq<ControllerModel>,
}

impl View for Handshake {
    type V = HandshakeModel;

    open spec fn view(&self) -> HandshakeModel {
        HandshakeModel {
            stage: self.stage,
            version: self.protocol_version,
            controllers: controller_models(self.controllers@),
        }
    }
}

/// The beginning of a handshake.
pub open spec fn fresh() -> HandshakeModel {
    HandshakeModel { stage: Stage::Version, version: 0, controllers: Seq::empty() }
}

/// What to do next.
pub open spec fn action_of(h: HandshakeModel) -> ActionModel {
    match h.stage {
        Stage::Version => ActionModel::Exchange(
            packet_of(0, REQUEST_PROTOCOL_VERSION, bytes32(CLIENT_PROTOCOL_VERSION as int)),
        ),
        Stage::Name => ActionModel::Notify(packet_of(0, SET_CLIENT_NAME, client_name())),
        Stage::Count => ActionModel::Exchange(
            packet_of(0, REQUEST_CONTROLLER_COUNT, Seq::empty()),
        ),
        Stage::Controllers { count, next } => ActionModel::Exchange(
            packet_of(next, REQUEST_CONTROLLER_DATA, request_data(h.version)),
        ),
        Stage::Done => ActionModel::Finish,
    }
}

/// The stage in which controller `next` of `count` is asked for.
pub open spec fn asking_for(next: int, count: u32) -> Stage {
    if next < count {
        Stage::Controllers { count, next: next as u32 }
    } else {
        Stage::Done
    }
}

/// The controllers together with the one that a reply describes, if it describes one.
pub open spec fn with_described(
    controllers: Seq<ControllerModel>,
    id: u32,
    version: u32,
    reply: Seq<u8>,
) -> Seq<ControllerModel> {
    match controller_in(id, version, reply) {
        Ok(c) => controllers.push(c),
        Err(_) => controllers,
    }
}

/// The handshake after a reply, or after the exchange has failed. Without a reply on its
/// version, the server is taken to speak version 0. A description that cannot be read is
/// skipped. Where the list of controllers cannot be had whole, there are none.
pub open spec fn after(h: HandshakeModel, reply: Option<Seq<u8>>) -> HandshakeModel {
    match (h.stage, reply) {
        (Stage::Version, Some(reply)) => HandshakeModel {
            stage: Stage::Name,
            version: agreed_version(reply),
            ..h
        },
        (Stage::Version, None) => HandshakeModel { stage: Stage::Name, version: 0, ..h },
        (Stage::Name, _) => HandshakeModel { stage: Stage::Count, ..h },
        (Stage::Count, Some(reply)) => HandshakeModel {
            stage: asking_for(0, number_told(reply)),
            ..h
        },
        (Stage::Controllers { count, next }, Some(reply)) => HandshakeModel {
            stage: asking_for(next + 1, count),
            controllers: with_described(h.controllers, next, h.version, reply),
            ..h
        },
        (Stage::Done, _) => h,
        (_, None) => HandshakeModel { stage: Stage::Done, controllers: Seq::empty(), ..h },
    }
}

/// What is wrong with a reply that should describe a controller.
pub open spec fn fault_in(h: HandshakeModel, reply: Option<Seq<u8>>) -> Option<Seq<char>> {
    match (h.stage, reply) {
        (Stage::Controllers { count, next }, Some(reply)) => match controller_in(
            next,
            h.version,
            reply,
        ) {
            Ok(_) => None,
            Err(e) => Some(e),
        },
        _ => None,
    }
}

/// The contents of an optional reply.
pub open spec fn opt_bytes(reply: Option<Vec<u8>>) -> Option<Seq<u8>> {
    match reply {
        Some(reply) => Some(reply@),
        None => None,
    }
}

impl Handshake {
    /// Begins a handshake.
    pub fn new() -> (r: Self)
        ensures
            r@ == fresh(),
    {
        let r = Self { stage: Stage::Version, protocol_version: 0, controllers: Vec::new() };
        assert(r@ =~= fresh());
        r
    }

    /// What to do next.
    pub fn action(&self) -> (r: Action)
        ensures
            r@ == action_of(self@),
    {
        match self.stage {
            Stage::Version => {
                let mut data: Vec<u8> = Vec::new();
                push32(&mut data, CLIENT_PROTOCOL_VERSION);
                assert(data@ =~= bytes32(CLIENT_PROTOCOL_VERSION as int));
                Action::Exchange(packet(0, REQUEST_PROTOCOL_VERSION, data.as_slice()))
            },
            Stage::Name => {
                let name: [u8; 7] = [0x73, 0x79, 0x73, 0x6d, 0x6f, 0x6e, 0];
                assert(name@ =~= client_name());
                Action::Notify(packet(0, SET_CLIENT_NAME, &name))
            },
            Stage::Count => {
                let data: Vec<u8> = Vec::new();
                Action::Exchange(packet(0, REQUEST_CONTROLLER_COUNT, data.as_slice()))
            },
            Stage::Controllers { count: _, next } => {
                let mut data: Vec<u8> = Vec::new();
                if self.protocol_version != 0 {
                    push32(&mut data, self.protocol_version);
                }
                assert(data@ =~= request_data(self.protocol_version));
                Action::Exchange(packet(next, REQUEST_CONTROLLER_DATA, data.as_slice()))
            },
            Stage::Done => Action::Finish,
        }
    }

    /// Takes the reply that came, or that none came. Gives what is wrong with the reply if it
    /// should describe a controller and cannot be read.
    pub fn advance(&mut self, reply: Option<Vec<u8>>) -> (r: Option<String>)
        ensures
            final(self)@ == after(old(self)@, opt_bytes(reply)),
            opt_text(r) == fault_in(old(self)@, opt_bytes(reply)),
    {
        let mut fault: Option<String> = None;
        match (self.stage, reply) {
            (Stage::Version, Some(reply)) => {
                self.protocol_version = negotiated_version(reply.as_slice());
                self.stage = Stage::Name;
            },
            (Stage::Version, None) => {
                self.protocol_version = 0;
                self.stage = Stage::Name;
            },
            (Stage::Name, _) => {
                self.stage = Stage::Count;
            },
            (Stage::Count, Some(reply)) => {
                let count: u32 = told_number(reply.as_slice());
                self.stage =
                if count > 0 {
                    Stage::Controllers { count, next: 0 }
                } else {
                    Stage::Done
                };
            },
            (Stage::Controllers { count, next }, Some(reply)) => {
                let ghost before_push = controller_models(self.controllers@);
                match parse_controller(next, self.protocol_version, reply.as_slice()) {
                    Ok(controller) => {
                        self.controllers.push(controller);
                        assert(controller_models(self.controllers@) =~= before_push.push(
                            controller@,
                        ));
                    },
                    Err(e) => {
                        fault = Some(e);
                    },
                }
                self.stage =
                if count > 0 && next < count - 1 {
                    Stage::Controllers { count, next: next + 1 }
                } else {
                    Stage::Done
                };
            },
            (Stage::Done, _) => {},
            (_, None) => {
                self.controllers = Vec::new();
                self.stage = Stage::Done;
            },
        }
        assert(self@ =~= after(old(self)@, opt_bytes(reply)));
        fault
    }
}

/// The handshake after several replies.
pub open spec fn after_all(h: HandshakeModel, replies: Seq<Option<Seq<u8>>>) -> HandshakeModel
    decreases replies.len(),
{
    if replies.len() == 0 {
        h
    } else {
        after(after_all(h, replies.drop_last()), replies.last())
    }
}

/// The controllers that replies describe, in their order. The first reply is on controller 0.
pub open spec fn described(version: u32, replies: Seq<Seq<u8>>) -> Seq<ControllerModel>
    decreases replies.len(),
{
    if replies.len() == 0 {
        Seq::empty()
    } else {
        with_described(
            described(version, replies.drop_last()),
            (replies.len() - 1) as u32,
            version,
            replies.last(),
        )
    }
}

/// Replies that all came.
pub open spec fn all_came(replies: Seq<Seq<u8>>) -> Seq<Option<Seq<u8>>> {
    Seq::new(replies.len(), |i: int| Some(replies[i]))
}

proof fn lemma_asking(h: HandshakeModel, count: u32, replies: Seq<Seq<u8>>)
    requires
        h.stage == asking_for(0, count),
        h.controllers == Seq::<ControllerModel>::empty(),
        replies.len() <= count,
    ensures
        after_all(h, all_came(replies)) == (HandshakeModel {
            stage: asking_for(replies.len() as int, count),
            controllers: described(h.version, replies),
            ..h
        }),
    decreases replies.len(),
{
    if replies.len() > 0 {
        lemma_asking(h, count, replies.drop_last());
        assert(all_came(replies).drop_last() =~= all_came(replies.drop_last()));
        assert(all_came(replies).last() == Some(replies.last()));
    }
}

/// Where every reply comes, the handshake is over once each controller that the server has told
/// of was asked for, and it has exactly the controllers that the replies describe.
pub proof fn handshake_collects_every_controller(
    version_reply: Seq<u8>,
    name_sent: Option<Seq<u8>>,
    count_reply: Seq<u8>,
    replies: Seq<Seq<u8>>,
)
    requires
        replies.len() == number_told(count_reply),
    ensures
        after_all(
            after(after(after(fresh(), Some(version_reply)), name_sent), Some(count_reply)),
            all_came(replies),
        ) == (HandshakeModel {
            stage: Stage::Done,
            version: agreed_version(version_reply),
            controllers: described(agreed_version(version_reply), replies),
        }),
{
    let h = after(after(after(fresh(), Some(version_reply)), name_sent), Some(count_reply));
    lemma_asking(h, number_told(count_reply), replies);
}

/// Where the version cannot be had, the handshake goes on with version 0: if the other replies
/// come, it has exactly the controllers that they describe in that version.
pub proof fn handshake_goes_on_without_a_version(
    name_sent: Option<Seq<u8>>,
    count_reply: Seq<u8>,
    replies: Seq<Seq<u8>>,
)
    requires
        replies.len() == number_told(count_reply),
    ensures
        after_all(
            after(after(after(fresh(), None), name_sent), Some(count_reply)),
            all_came(replies),
        ) == (HandshakeModel {
            stage: Stage::Done,
            version: 0,
            controllers: described(0, replies),
        }),
{
    let h = after(after(after(fresh(), None), name_sent), Some(count_reply));
    lemma_asking(h, number_told(count_reply), replies);
}

/// Where the reply on a controller is lost, with or without a version and after however many
/// replies that came, the handshake ends without controllers, whatever comes later.
pub proof fn handshake_ends_at_a_lost_reply(
    version_reply: Option<Seq<u8>>,
    name_sent: Option<Seq<u8>>,
    count_reply: Seq<u8>,
    replies: Seq<Seq<u8>>,
    later: Seq<Option<Seq<u8>>>,
)
    requires
        replies.len() < number_told(count_reply),
    ensures
        ({
            let asked = after_all(
                after(after(after(fresh(), version_reply), name_sent), Some(count_reply)),
                all_came(replies),
            );
            let end = after_all(after(asked, None), later);
            end.stage is Done && end.controllers.len() == 0
        }),
{
    let h = after(after(after(fresh(), version_reply), name_sent), Some(count_reply));
    lemma_asking(h, number_told(count_reply), replies);
    let asked = after_all(h, all_came(replies));
    a_lost_reply_leaves_no_controllers(asked);
    done_is_final(after(asked, None), later);
}

/// A version that the server names is never exceeded, nor is the newest that is spoken here;
/// where it cannot be had it is 0. It does not change later.
pub proof fn version_is_agreed(h: HandshakeModel, reply: Option<Seq<u8>>)
    ensures
        h.stage is Version ==> match reply {
            Some(r) => {
                &&& after(h, reply).version <= CLIENT_PROTOCOL_VERSION
                &&& after(h, reply).version <= number_told(r)
            },
            None => after(h, reply).version == 0,
        },
        !(h.stage is Version) ==> after(h, reply).version == h.version,
{
}

/// Where a request about controllers gets no reply, the handshake is over and has none.
pub proof fn a_lost_reply_leaves_no_controllers(h: HandshakeModel)
    requires
        h.stage is Count || h.stage is Controllers,
    ensures
        after(h, None).stage is Done,
        after(h, None).controllers.len() == 0,
{
}

/// Once it is over, the handshake does not change.
pub proof fn done_is_final(h: HandshakeModel, replies: Seq<Option<Seq<u8>>>)
    requires
        h.stage is Done,
    ensures
        after_all(h, replies) == h,
        action_of(h) is Finish,
    decreases replies.len(),
{
    if replies.len() > 0 {
        done_is_final(h, replies.drop_last());
    }
}

/// The handshake asks only for controllers that the server has told of, and the controllers it
/// has are in the order of their numbers, each with a number of its own that was asked for.
pub open spec fn orderly(h: HandshakeModel) -> bool {
    &&& h.stage matches Stage::Controllers { count, next } ==> next < count
    &&& (h.stage is Version || h.stage is Name || h.stage is Count) ==> h.controllers.len() == 0
    &&& h.stage matches Stage::Controllers { count, next } ==> forall|i: int|
        0 <= i < h.controllers.len() ==> (#[trigger] h.controllers[i]).id < next
    &&& forall|i: int, j: int|
        0 <= i < j < h.controllers.len() ==> (#[trigger] h.controllers[i]).id < (
        #[trigger] h.controllers[j]).id
}

/// Every handshake is orderly from the beginning, and stays so whatever comes.
pub proof fn handshakes_stay_orderly(h: HandshakeModel, reply: Option<Seq<u8>>)
    ensures
        orderly(fresh()),
        orderly(h) ==> orderly(after(h, reply)),
{
}

// ---------------------------------------------------------------------------
// The client
// ---------------------------------------------------------------------------
/// A session in which colors can be sent.
pub struct Client {
    pub protocol_version: u32,
    pub controller: Controller,
}

impl Client {
    /// The client that a handshake leads to: for the controller that the settings select, if
    /// there is any.
    pub fn connect(handshake: Handshake, config: &Config) -> (r: Option<Self>)
        ensures
            match selected_controller(
                controller_models(handshake.controllers@),
                opt_text(config.openrgb_device),
            ) {
                Some(i) => {
                    &&& 0 <= i < handshake.controllers@.len()
                    &&& r matches Some(client)
                    &&& client.controller == handshake.controllers@[i]
                    &&& client.protocol_version == handshake.protocol_version
                },
                None => r is None,
            },
            r is Some <==> handshake.controllers@.len() > 0,
    {
        proof {
            some_controller_is_selected(
                controller_models(handshake.controllers@),
                opt_text(config.openrgb_device),
            );
        }
        let protocol_version: u32 = handshake.protocol_version;
        let selected = match &config.openrgb_device {
            Some(device) => select_controller(handshake.controllers, Some(device.as_str())),
            None => select_controller(handshake.controllers, None),
        };
        match selected {
            Some(controller) => Some(Self { protocol_version, controller }),
            None => None,
        }
    }

    /// The controller whose LEDs are set.
    pub fn controller(&self) -> (r: &Controller)
        ensures
            *r == self.controller,
    {
        &self.controller
    }

    /// The packet that sets all LEDs.
    pub fn send_leds(&self, leds: &[Led]) -> (r: Vec<u8>)
        ensures
            r@ == packet_of(self.controller.id, UPDATE_LEDS, leds_data(leds@)),
    {
        leds_packet(self.controller.id, leds)
    }

    /// The version of the protocol that is spoken.
    pub fn protocol_version(&self) -> (r: u32)
        ensures
            r == self.protocol_version,
    {
        self.protocol_version
    }
}

// ---------------------------------------------------------------------------
// What is said and what follows from it
// ---------------------------------------------------------------------------
/// A reply of four bytes or more tells the number that they stand for, of which the first counts
/// least; a shorter one tells 0.
pub proof fn replies_tell_their_first_number(reply: Seq<u8>)
    ensures
        reply.len() >= 4 ==> number_told(reply) == number_at(reply, 0),
        reply.len() < 4 ==> number_told(reply) == 0,
{
    bytes_have_weights(reply);
}

/// The version that is agreed on is the smaller of the one that the server tells and 5, the one
/// that is spoken here: it is no greater than either, and it is one of them.
pub proof fn the_smaller_version_is_agreed(reply: Seq<u8>)
    ensures
        agreed_version(reply) <= 5,
        reply.len() >= 4 ==> agreed_version(reply) <= number_at(reply, 0),
        reply.len() >= 4 ==> agreed_version(reply) == 5 || agreed_version(reply) == number_at(
            reply,
            0,
        ),
        reply.len() < 4 ==> agreed_version(reply) == 0,
{
    bytes_have_weights(reply);
}

/// The server is asked for its version and told the one spoken here; it is told the name `sysmon`,
/// with a zero behind it; it is asked how many controllers it has; then it is asked for each by its
/// number, and told the version that was agreed on unless that is 0.
pub proof fn the_server_is_asked_in_turn(h: HandshakeModel)
    ensures
        h.stage is Version ==> (action_of(h) matches ActionModel::Exchange(p) && p == packet_of(
            0,
            40,
            seq![5u8, 0u8, 0u8, 0u8],
        )),
        h.stage is Name ==> (action_of(h) matches ActionModel::Notify(p) && p == packet_of(
            0,
            50,
            seq![115u8, 121u8, 115u8, 109u8, 111u8, 110u8, 0u8],
        )),
        h.stage is Count ==> (action_of(h) matches ActionModel::Exchange(p) && p == packet_of(
            0,
            0,
            Seq::empty(),
        )),
        h.stage matches Stage::Controllers { count, next } ==> (action_of(
            h,
        ) matches ActionModel::Exchange(p) && exists|data: Seq<u8>| #[trigger]
            packet_of(next, 1, data) == p && if h.version == 0 {
                data.len() == 0
            } else {
                data.len() == 4 && number_at(data, 0) == h.version
            }),
        h.stage is Done ==> action_of(h) is Finish,
{
    assert(bytes32(5) =~= seq![5u8, 0u8, 0u8, 0u8]);
    numbers_are_written_low_byte_first(0, h.version);
    if let Stage::Controllers { count, next } = h.stage {
        let data = request_data(h.version);
        assert(action_of(h) == ActionModel::Exchange(packet_of(next, 1, data)));
    }
}

/// After the version comes the name, after the name the number of controllers, and after that each
/// controller up to that number; a controller that its reply describes is added behind the others,
/// and one that its reply does not describe is left out.
pub proof fn the_handshake_goes_on_in_turn(h: HandshakeModel, reply: Seq<u8>, sent: Option<Seq<u8>>)
    ensures
        h.stage is Version ==> after(h, Some(reply)).stage is Name && after(h, None).stage is Name
            && after(h, Some(reply)).version == agreed_version(reply) && after(h, None).version == 0
            && after(h, sent).controllers == h.controllers,
        h.stage is Name ==> after(h, sent).stage is Count && after(h, sent).version == h.version
            && after(h, sent).controllers == h.controllers,
        h.stage is Count ==> {
            let next = after(h, Some(reply));
            &&& next.version == h.version
            &&& next.controllers == h.controllers
            &&& number_told(reply) == 0 ==> next.stage is Done
            &&& number_told(reply) > 0 ==> next.stage == (Stage::Controllers {
                count: number_told(reply),
                next: 0,
            })
        },
        h.stage matches Stage::Controllers { count, next } ==> {
            let then = after(h, Some(reply));
            &&& then.version == h.version
            &&& match controller_in(next, h.version, reply) {
                Ok(c) => then.controllers == h.controllers.push(c),
                Err(_) => then.controllers == h.controllers,
            }
            &&& next + 1 < count ==> then.stage == (Stage::Controllers {
                count,
                next: (next + 1) as u32,
            })
            &&& next + 1 >= count ==> then.stage is Done
        },
{
}

/// A fault is told exactly where a reply that should describe a controller does not, and it is what
/// is wrong with the reply.
pub proof fn faults_are_those_of_descriptions(h: HandshakeModel, reply: Seq<u8>)
    ensures
        fault_in(h, None) is None,
        !(h.stage is Controllers) ==> fault_in(h, Some(reply)) is None,
        h.stage matches Stage::Controllers { count, next } ==> match controller_in(
            next,
            h.version,
            reply,
        ) {
            Ok(_) => fault_in(h, Some(reply)) is None,
            Err(e) => fault_in(h, Some(reply)) == Some(e),
        },
{
}

/// The controllers that replies describe are those of the replies before the last and the one that
/// the last describes, if it does, by its number in version `version`.
pub proof fn each_reply_describes_one_controller(
    version: u32,
    replies: Seq<Seq<u8>>,
    reply: Seq<u8>,
)
    requires
        replies.len() <= u32::MAX,
    ensures
        described(version, Seq::empty()).len() == 0,
        match controller_in(replies.len() as u32, version, reply) {
            Ok(c) => described(version, replies.push(reply)) == described(version, replies).push(c),
            Err(_) => described(version, replies.push(reply)) == described(version, replies),
        },
{
    assert(replies.push(reply).drop_last() =~= replies);
}

/// The contents of handshakes, actions and replies are their fields.
pub proof fn session_contents_are_fields(
    handshake: Handshake,
    action: Action,
    reply: Option<Vec<u8>>,
)
    ensures
        handshake@.stage == handshake.stage,
        handshake@.version == handshake.protocol_version,
        handshake@.controllers.len() == handshake.controllers@.len(),
        forall|i: int|
            0 <= i < handshake.controllers@.len() ==> handshake@.controllers[i]
                == (#[trigger] handshake.controllers@[i])@,
        action matches Action::Exchange(p) ==> action@ == ActionModel::Exchange(p@),
        action matches Action::Notify(p) ==> action@ == ActionModel::Notify(p@),
        action is Finish <==> action@ is Finish,
        action is Exchange <==> action@ is Exchange,
        reply matches Some(r) ==> opt_bytes(reply) == Some(r@),
        reply is None <==> opt_bytes(reply) is None,
{
}

} // verus!
