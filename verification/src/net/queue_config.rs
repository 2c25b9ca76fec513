//! The configuration of a queue, and how updates of it travel.
use vstd::prelude::*;

use crate::errors::ErrorCode;
use crate::wire;
use crate::wire::{push_be, read_be};

verus! {

/// The configuration of a queue: whether a message that is not acknowledged in
/// time is given back by itself, and after how many milliseconds.
#[derive(Debug, Clone)]
pub struct QueueConfig {
    pub auto_fail: bool,
    pub fail_timeout: u64,
}

impl QueueConfig {
    /// The configuration that a queue starts with.
    pub fn new() -> (config: Self)
        ensures
            config == (QueueConfig { auto_fail: false, fail_timeout: 0 }),
    {
        QueueConfig { auto_fail: false, fail_timeout: 0 }
    }
}

/// An update of a queue's configuration: what to change, and to what.
pub struct ConfigUpdate {
    pub auto_fail: Option<bool>,
    pub fail_timeout: Option<u64>,
}

impl ConfigUpdate {
    /// The bytes of an update: a byte of flags that tells which values follow,
    /// then those values.
    pub open spec fn encoded(self) -> Seq<u8> {
        seq![self.flags()] + match self.auto_fail {
            Some(value) => seq![if value { 1u8 } else { 0u8 }],
            None => Seq::empty(),
        } + match self.fail_timeout {
            Some(value) => wire::be_bytes(value as nat, 8),
            None => Seq::empty(),
        }
    }

    /// The flags of an update: 1 for `auto_fail`, 2 for `fail_timeout`.
    pub open spec fn flags(self) -> u8 {
        match (self.auto_fail, self.fail_timeout) {
            (None, None) => 0,
            (Some(_), None) => 1,
            (None, Some(_)) => 2,
            (Some(_), Some(_)) => 3,
        }
    }

    /// Whether `flags` announces `auto_fail`.
    pub open spec fn has_auto_fail(flags: u8) -> bool {
        flags % 2 == 1
    }

    /// Whether `flags` announces `fail_timeout`.
    pub open spec fn has_fail_timeout(flags: u8) -> bool {
        flags / 2 % 2 == 1
    }

    /// Where the timeout stands, if there is one.
    pub open spec fn timeout_offset(flags: u8) -> nat {
        if Self::has_auto_fail(flags) {
            2
        } else {
            1
        }
    }

    /// How many bytes an update with these flags takes.
    pub open spec fn length(flags: u8) -> nat {
        Self::timeout_offset(flags) + if Self::has_fail_timeout(flags) {
            8nat
        } else {
            0
        }
    }

    /// Why `bytes` do not start with an update, if they do not.
    pub open spec fn decode_error(bytes: Seq<u8>) -> Option<ErrorCode> {
        if bytes.len() == 0 {
            Some(ErrorCode::ConfigBytesEmpty)
        } else if Self::has_auto_fail(bytes[0]) && bytes.len() < 2 {
            Some(ErrorCode::ConfigInvalidAutoFail)
        } else if bytes.len() < Self::length(bytes[0]) {
            Some(ErrorCode::ConfigInvalidFailTimeout)
        } else {
            None
        }
    }

    /// The update that `bytes` start with.
    pub open spec fn decoded(bytes: Seq<u8>) -> Self {
        let at = Self::timeout_offset(bytes[0]) as int;
        ConfigUpdate {
            auto_fail: if Self::has_auto_fail(bytes[0]) {
                Some(bytes[1] != 0)
            } else {
                None
            },
            fail_timeout: if Self::has_fail_timeout(bytes[0]) {
                Some(wire::be_value(bytes.subrange(at, at + 8)) as u64)
            } else {
                None
            },
        }
    }
}

/// Decoding gives back what was encoded, whatever follows it.
pub proof fn decoding_undoes_encoding(update: ConfigUpdate, rest: Seq<u8>)
    ensures
        ConfigUpdate::decode_error(update.encoded() + rest) is None,
        ConfigUpdate::decoded(update.encoded() + rest) == update,
        ConfigUpdate::length((update.encoded() + rest)[0]) == update.encoded().len(),
{
    broadcast use wire::be_bytes_len;

    let bytes = update.encoded() + rest;
    assert(bytes[0] == update.flags());
    if let Some(value) = update.fail_timeout {
        let at = ConfigUpdate::timeout_offset(bytes[0]) as int;
        assert(bytes.subrange(at, at + 8) =~= wire::be_bytes(value as nat, 8));
        wire::be_limit_values();
        wire::be_value_of_be_bytes(value as nat, 8);
    }
}

/// The lowest bit of the flags announces `auto_fail`, the one above it `fail_timeout`;
/// the other bits do not matter.
pub proof fn flags_are_bits(flags: u8)
    ensures
        ConfigUpdate::has_auto_fail(flags) <==> flags & 1 == 1,
        ConfigUpdate::has_fail_timeout(flags) <==> flags & 2 == 2,
{
    assert((flags & 1 == 1) == (flags % 2 == 1)) by (bit_vector);
    assert((flags & 2 == 2) == (flags / 2 % 2 == 1)) by (bit_vector);
}

/// The bytes of an update are its flags, a byte for `auto_fail` where it is set, and the
/// eight bytes of `fail_timeout` where it is set.
pub proof fn update_bytes_are_its_values(update: ConfigUpdate)
    ensures
        ({
            let bytes = update.encoded();
            &&& bytes.len() == 1 + (if update.auto_fail is Some {
                1int
            } else {
                0
            }) + (if update.fail_timeout is Some {
                8int
            } else {
                0
            })
            &&& bytes[0] < 4
            &&& bytes[0] & 1 == 1 <==> update.auto_fail is Some
            &&& bytes[0] & 2 == 2 <==> update.fail_timeout is Some
            &&& update.auto_fail == Some(true) ==> bytes[1] == 1
            &&& update.auto_fail == Some(false) ==> bytes[1] == 0
            &&& update.fail_timeout matches Some(value) ==> wire::be_value(
                bytes.skip(bytes.len() - 8),
            ) == value
        }),
{
    broadcast use wire::be_bytes_len;

    let bytes = update.encoded();
    flags_are_bits(update.flags());
    assert(bytes[0] == update.flags());
    wire::be_limit_values();
    if let Some(value) = update.fail_timeout {
        assert(bytes.skip(bytes.len() - 8) =~= wire::be_bytes(value as nat, 8));
        wire::be_value_of_be_bytes(value as nat, 8);
    }
}

/// Any bytes that are long enough for what their flags announce are an update: the byte
/// behind the flags tells `auto_fail`, anything but zero meaning yes, and the next eight
/// bytes tell `fail_timeout`.
pub proof fn any_update_is_read(bytes: Seq<u8>)
    requires
        bytes.len() > 0,
    ensures
        ({
            let update = ConfigUpdate::decoded(bytes);
            let first = bytes[0] & 1 == 1;
            let second = bytes[0] & 2 == 2;
            let at: int = if first {
                2
            } else {
                1
            };
            &&& ConfigUpdate::decode_error(bytes) is None <==> bytes.len() >= at + if second {
                8int
            } else {
                0
            }
            &&& ConfigUpdate::decode_error(bytes) == Some(ErrorCode::ConfigInvalidAutoFail) <==> first
                && bytes.len() == 1
            &&& ConfigUpdate::decode_error(bytes) == Some(ErrorCode::ConfigInvalidFailTimeout)
                <==> second && at <= bytes.len() < at + 8
            &&& ConfigUpdate::decode_error(bytes) is None ==> {
                &&& update.auto_fail is Some <==> first
                &&& first ==> update.auto_fail == Some(bytes[1] != 0)
                &&& update.fail_timeout is Some <==> second
                &&& second ==> wire::be_bytes(update.fail_timeout->0 as nat, 8) == bytes.subrange(
                    at,
                    at + 8,
                )
                &&& ConfigUpdate::length(bytes[0]) == at + if second {
                    8int
                } else {
                    0
                }
            }
        }),
{
    flags_are_bits(bytes[0]);
    let at = ConfigUpdate::timeout_offset(bytes[0]) as int;
    if ConfigUpdate::decode_error(bytes) is None && bytes[0] & 2 == 2 {
        let field = bytes.subrange(at, at + 8);
        wire::be_value_bound(field);
        wire::be_limit_values();
        wire::be_bytes_of_be_value(field);
    }
}

/// An update of a queue's configuration.
#[derive(Debug, Clone)]
pub struct NetQueueConfig {
    auto_fail: Option<bool>,
    fail_timeout: Option<u64>,
}

impl View for NetQueueConfig {
    type V = ConfigUpdate;

    closed spec fn view(&self) -> ConfigUpdate {
        ConfigUpdate { auto_fail: self.auto_fail, fail_timeout: self.fail_timeout }
    }
}

impl NetQueueConfig {
    /// An update made of its parts.
    pub fn new(auto_fail: Option<bool>, fail_timeout: Option<u64>) -> (config: Self)
        ensures
            config@ == (ConfigUpdate { auto_fail, fail_timeout }),
    {
        NetQueueConfig { auto_fail, fail_timeout }
    }

    /// What to set `auto_fail` to, if anything.
    pub fn auto_fail(&self) -> (value: Option<bool>)
        ensures
            value == self@.auto_fail,
    {
        self.auto_fail
    }

    /// What to set `fail_timeout` to, if anything.
    pub fn fail_timeout(&self) -> (value: Option<u64>)
        ensures
            value == self@.fail_timeout,
    {
        self.fail_timeout
    }

    /// The bytes of this update.
    pub fn to_be_bytes(&self) -> (bytes: Vec<u8>)
        ensures
            bytes@ == self@.encoded(),
    {
        let mut bytes: Vec<u8> = Vec::with_capacity(10);
        let mut flags: u8 = 0;
        if self.auto_fail.is_some() {
            flags = flags + 1;
        }
        if self.fail_timeout.is_some() {
            flags = flags + 2;
        }
        bytes.push(flags);
        if let Some(value) = self.auto_fail {
            bytes.push(
                if value {
                    1
                } else {
                    0
                },
            );
        }
        if let Some(value) = self.fail_timeout {
            push_be(&mut bytes, value as u128, 8);
        }
        assert(bytes@ =~= self@.encoded());
        bytes
    }

    /// Reads an update from the start of `bytes`; gives it with its length.
    pub fn from_be_bytes(bytes: Vec<u8>) -> (result: Result<(Self, usize), ErrorCode>)
        ensures
            match ConfigUpdate::decode_error(bytes@) {
                Some(error) => result == Err::<(Self, usize), ErrorCode>(error),
                None => {
                    &&& result matches Ok((config, length))
                    &&& config@ == ConfigUpdate::decoded(bytes@)
                    &&& length == ConfigUpdate::length(bytes@[0])
                },
            },
    {
        if bytes.is_empty() {
            return Err(ErrorCode::ConfigBytesEmpty);
        }
        let flags: u8 = bytes[0];
        let mut offset: usize = 1;
        assert((flags & 0b01 != 0) == (flags % 2 == 1)) by (bit_vector);
        assert((flags & 0b10 != 0) == (flags / 2 % 2 == 1)) by (bit_vector);
        let auto_fail = if flags & 0b01 != 0 {
            if bytes.len() < 1 + offset {
                return Err(ErrorCode::ConfigInvalidAutoFail);
            }
            let value: bool = bytes[offset] != 0;
            offset = offset + 1;
            Some(value)
        } else {
            None
        };
        let fail_timeout = if flags & 0b10 != 0 {
            if bytes.len() < 8 + offset {
                return Err(ErrorCode::ConfigInvalidFailTimeout);
            }
            let field = vstd::slice::slice_subrange(bytes.as_slice(), offset, offset + 8);
            proof {
                wire::be_value_bound(field@);
                wire::be_limit_values();
            }
            let value: u64 = read_be(field) as u64;
            offset = offset + 8;
            Some(value)
        } else {
            None
        };
        Ok((NetQueueConfig { auto_fail, fail_timeout }, offset))
    }
}

} // verus!
