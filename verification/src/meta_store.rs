//! The sequencer checkpoint: the last order that was sequenced and the
//! accumulator root at that order.

use crate::digest::H256;
use vstd::prelude::*;

verus! {

/// The sequencer checkpoint.
#[derive(Clone, Copy, Debug)]
pub struct SequencerInfo {
    /// The order of the last sequenced transaction, if there is one.
    pub last_order: Option<u64>,
    /// The accumulator root after that transaction.
    pub last_accumulator_root: H256,
}

/// What a checkpoint holds.
pub struct SequencerInfoView {
    pub last_order: Option<u64>,
    pub last_accumulator_root: Seq<u8>,
}

impl View for SequencerInfo {
    type V = SequencerInfoView;

    open spec fn view(&self) -> SequencerInfoView {
        SequencerInfoView {
            last_order: self.last_order,
            last_accumulator_root: self.last_accumulator_root@,
        }
    }
}

impl SequencerInfo {
    /// The checkpoint after the transaction at `last_order`.
    pub fn new(last_order: u64, last_accumulator_root: H256) -> (r: Self)
        ensures
            r@ == (SequencerInfoView {
                last_order: Some(last_order),
                last_accumulator_root: last_accumulator_root@,
            }),
    {
        SequencerInfo { last_order: Some(last_order), last_accumulator_root }
    }
}

/// A checkpoint that may be absent, as what it holds.
pub open spec fn checkpoint_of(info: Option<SequencerInfo>) -> Option<SequencerInfoView> {
    match info {
        Some(info) => Some(info@),
        None => None,
    }
}

/// The order that must be sequenced next after `checkpoint`: zero when
/// nothing was sequenced, else the successor of the last order; `None` when
/// the last order is the largest there is.
pub open spec fn next_order(checkpoint: Option<SequencerInfoView>) -> Option<u64> {
    match checkpoint {
        None => Some(0u64),
        Some(info) => match info.last_order {
            None => Some(0u64),
            Some(last) => if last < u64::MAX {
                Some((last + 1) as u64)
            } else {
                None
            },
        },
    }
}

/// The store of the one checkpoint record.
pub struct MetaDBStore {
    sequencer_info: Option<SequencerInfo>,
}

impl View for MetaDBStore {
    type V = Option<SequencerInfoView>;

    /// The checkpoint, or `None` when nothing was ever sequenced.
    closed spec fn view(&self) -> Option<SequencerInfoView> {
        checkpoint_of(self.sequencer_info)
    }
}

impl MetaDBStore {
    /// The store without a checkpoint.
    pub fn new() -> (r: Self)
        ensures
            r@ is None,
    {
        MetaDBStore { sequencer_info: None }
    }

    /// The checkpoint, if there is one.
    pub fn get_sequencer_info(&self) -> (r: Option<SequencerInfo>)
        ensures
            checkpoint_of(r) == self@,
    {
        self.sequencer_info
    }

    /// Puts `sequencer_info` in the place of the checkpoint.
    pub fn save_sequencer_info(&mut self, sequencer_info: SequencerInfo)
        ensures
            final(self)@ == Some(sequencer_info@),
    {
        self.sequencer_info = Some(sequencer_info);
    }

    /// Removes the checkpoint.
    pub fn remove_sequence_info(&mut self)
        ensures
            final(self)@ is None,
    {
        self.sequencer_info = None;
    }

    /// The order that the next sequenced transaction must have, or `None`
    /// when every order is used up.
    pub fn get_next_order(&self) -> (r: Option<u64>)
        ensures
            r == next_order(self@),
    {
        match self.sequencer_info {
            None => Some(0),
            Some(info) => match info.last_order {
                None => Some(0),
                Some(last) => if last < u64::MAX {
                    Some(last + 1)
                } else {
                    None
                },
            },
        }
    }
}

} // verus!
