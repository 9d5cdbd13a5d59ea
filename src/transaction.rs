use vstd::prelude::*;
use crate::common::{Address, ChainId, DateTimeUtc};

verus! {

/// Metadata common to all transactions.
#[derive(Clone, Debug)]
pub struct Header {
    pub chain_id: ChainId,
    pub expiration: Option<DateTimeUtc>,
    pub timestamp: DateTimeUtc,
}

/// A signed-over request to change the ledger.
#[derive(Clone, Debug)]
pub struct Transaction {
    pub header: Header,
    pub chain_id: ChainId,
    pub from: Address,
    pub tx_payload: TxPayload,
    pub nonce: u64,
}

/// What a transaction asks for. A transfer amount is never zero.
#[derive(Clone, Debug)]
pub enum TxPayload {
    CreateAccount,
    Transfer { to: Address, amount: u128 },
}

pub struct HeaderView {
    pub chain_id: Seq<char>,
    pub expiration: Option<DateTimeUtc>,
    pub timestamp: DateTimeUtc,
}

pub enum PayloadView {
    CreateAccount,
    Transfer { to: Seq<u8>, amount: u128 },
}

/// The mathematical content of a transaction.
pub struct TxView {
    pub header: HeaderView,
    pub chain_id: Seq<char>,
    pub from: Seq<u8>,
    pub payload: PayloadView,
    pub nonce: u64,
}

impl View for Header {
    type V = HeaderView;

    open spec fn view(&self) -> HeaderView {
        HeaderView {
            chain_id: self.chain_id@,
            expiration: self.expiration,
            timestamp: self.timestamp,
        }
    }
}

impl View for TxPayload {
    type V = PayloadView;

    open spec fn view(&self) -> PayloadView {
        match self {
            TxPayload::CreateAccount => PayloadView::CreateAccount,
            TxPayload::Transfer { to, amount } => PayloadView::Transfer { to: to@, amount: *amount },
        }
    }
}

impl View for Transaction {
    type V = TxView;

    open spec fn view(&self) -> TxView {
        TxView {
            header: self.header@,
            chain_id: self.chain_id@,
            from: self.from@,
            payload: self.tx_payload@,
            nonce: self.nonce,
        }
    }
}

/// Text whose UTF-8 form has a length that a four-byte prefix can hold.
pub open spec fn text_fits(s: Seq<char>) -> bool {
    vstd::utf8::encode_utf8(s).len() <= u32::MAX
}

impl HeaderView {
    pub open spec fn wf(&self) -> bool {
        &&& text_fits(self.chain_id)
        &&& (self.expiration matches Some(e) ==> e.wf())
        &&& self.timestamp.wf()
    }
}

impl TxView {
    /// A transaction that has an encoding: texts fit, times are in range,
    /// addresses have 20 bytes and a transfer moves a positive amount.
    pub open spec fn wf(&self) -> bool {
        &&& self.header.wf()
        &&& text_fits(self.chain_id)
        &&& self.from.len() == 20
        &&& (self.payload matches PayloadView::Transfer { to, amount } ==> to.len() == 20
            && amount > 0)
    }
}

} // verus!
