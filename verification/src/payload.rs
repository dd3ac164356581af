use vstd::prelude::*;

verus! {

use crate::vector_clock::{ClockV, VectorClock, zero_clock_vals};

/// The six message kinds.
pub const MSG_ENQ_INVOKE: i32 = 0;

pub const MSG_ENQ_REQ: i32 = 1;

pub const MSG_ENQ_ACK: i32 = 2;

pub const MSG_DEQ_INVOKE: i32 = 3;

pub const MSG_DEQ_REQ: i32 = 4;

pub const MSG_DEQ_ACK: i32 = 5;

/// Mathematical model of a payload.
#[verifier::ext_equal]
pub ghost struct MsgV {
    pub message: i32,
    pub value: i32,
    pub invoker: i32,
    pub sender: i32,
    pub receiver: i32,
    pub ts: ClockV,
}

/// Model of a placeholder payload of the given kind.
pub open spec fn placeholder_msg_v(msg: i32) -> MsgV {
    MsgV {
        message: msg,
        value: -1i32,
        invoker: -1i32,
        sender: -1i32,
        receiver: -1i32,
        ts: ClockV { vals: zero_clock_vals(), size: 0 },
    }
}

/// A fixed-layout record exchanged between peers. Kinds 0 and 3 are local
/// invocations injected by the ingress; 1, 2, 4 and 5 travel between peers.
#[derive(Clone, Copy)]
pub struct MessagePayload {
    pub message: i32,
    pub value: i32,
    pub invoker: i32,
    pub sender: i32,
    pub receiver: i32,
    pub time_stamp: VectorClock,
}

impl View for MessagePayload {
    type V = MsgV;

    open spec fn view(&self) -> MsgV {
        MsgV {
            message: self.message,
            value: self.value,
            invoker: self.invoker,
            sender: self.sender,
            receiver: self.receiver,
            ts: self.time_stamp@,
        }
    }
}

impl MessagePayload {
    pub fn new(msg: i32, val: i32, inv: i32, sender: i32, receiver: i32, ts: VectorClock) -> (r:
        Self)
        ensures
            r@ == (MsgV {
                message: msg,
                value: val,
                invoker: inv,
                sender: sender,
                receiver: receiver,
                ts: ts@,
            }),
    {
        MessagePayload { message: msg, value: val, invoker: inv, sender, receiver, time_stamp: ts }
    }

    /// A placeholder payload of the given kind with every other field
    /// marked unused.
    pub fn with_msg(msg: i32) -> (r: Self)
        ensures
            r@ == placeholder_msg_v(msg),
    {
        MessagePayload {
            message: msg,
            value: -1,
            invoker: -1,
            sender: -1,
            receiver: -1,
            time_stamp: VectorClock::default(),
        }
    }
}

} // verus!
