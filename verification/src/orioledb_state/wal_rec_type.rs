//! Type bytes of the sub-records in a container body.
use vstd::prelude::*;

verus! {

pub const NONE: u8 = 0;

pub const XID: u8 = 1;

pub const COMMIT: u8 = 2;

pub const ROLLBACK: u8 = 3;

pub const RELATION: u8 = 4;

pub const INSERT: u8 = 5;

pub const UPDATE: u8 = 6;

pub const DELETE: u8 = 7;

pub const O_TABLES_META_LOCK: u8 = 8;

pub const O_TABLES_META_UNLOCK: u8 = 9;

pub const SAVEPOINT: u8 = 10;

pub const ROLLBACK_TO_SAVEPOINT: u8 = 11;

pub const JOINT_COMMIT: u8 = 12;

pub const TRUNCATE: u8 = 13;

pub const BRIDGE_ERASE: u8 = 14;

pub const REINSERT: u8 = 15;

pub const REPLAY_FEEDBACK: u8 = 16;

pub const SWITCH_LOGICAL_XID: u8 = 17;

pub const RELREPLIDENT: u8 = 18;

} // verus!
