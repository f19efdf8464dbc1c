//! The ledger's own vocabulary: transaction and account names, amounts, holds, and the decisions a
//! committed transfer turns into.

use vstd::prelude::*;

verus! {

/// A signed amount in the ledger's smallest unit.
pub type Amount = i64;

/// The name of a transaction, and so of the hold it creates. Zero names nothing.
#[derive(Clone, Copy, Debug, PartialEq, Eq, Structural, Hash)]
pub struct TxId(pub u128);

/// The bit that sets a void raised by an expiry apart from the transaction whose hold it voids.
pub const EXPIRY_VOID_BIT: u128 = 0x8000_0000_0000_0000_0000_0000_0000_0000;

impl TxId {
    pub open spec fn spec_absent() -> TxId {
        TxId(0)
    }

    /// The name that names nothing.
    #[verifier::when_used_as_spec(spec_absent)]
    pub fn absent() -> (id: TxId)
        ensures
            id == TxId::spec_absent(),
    {
        TxId(0)
    }

    pub open spec fn spec_raw(self) -> u128 {
        self.0
    }

    #[verifier::when_used_as_spec(spec_raw)]
    pub fn raw(self) -> (raw: u128)
        ensures
            raw == self.spec_raw(),
    {
        self.0
    }

    pub open spec fn spec_expiry_void_of(key: TxId) -> TxId {
        TxId(key.0 | EXPIRY_VOID_BIT)
    }

    /// The transaction name under which the expiry of `key` voids its hold: a function of the key
    /// alone, so that every replica that notices the same expiry proposes the same transaction.
    #[verifier::when_used_as_spec(spec_expiry_void_of)]
    pub fn expiry_void_of(key: TxId) -> (id: TxId)
        ensures
            id == TxId::spec_expiry_void_of(key),
    {
        TxId(key.0 | EXPIRY_VOID_BIT)
    }
}

/// The name of an account.
#[derive(Clone, Copy, Debug, PartialEq, Eq, Structural, Hash)]
pub struct AccountId(pub u64);

impl AccountId {
    pub open spec fn spec_raw(self) -> u64 {
        self.0
    }

    #[verifier::when_used_as_spec(spec_raw)]
    pub fn raw(self) -> (raw: u64)
        ensures
            raw == self.spec_raw(),
    {
        self.0
    }
}

/// The name of a budget that several holds draw on together. Zero is no budget.
#[derive(Clone, Copy, Debug, PartialEq, Eq, Structural, Hash)]
pub struct BudgetGroup(pub u128);

impl BudgetGroup {
    pub open spec fn spec_absent() -> BudgetGroup {
        BudgetGroup(0)
    }

    /// No budget.
    #[verifier::when_used_as_spec(spec_absent)]
    pub fn absent() -> (group: BudgetGroup)
        ensures
            group == BudgetGroup::spec_absent(),
    {
        BudgetGroup(0)
    }

    pub open spec fn spec_is_absent(self) -> bool {
        self.0 == 0
    }

    #[verifier::when_used_as_spec(spec_is_absent)]
    pub fn is_absent(self) -> (absent: bool)
        ensures
            absent == self.spec_is_absent(),
    {
        self.0 == 0
    }

    pub open spec fn spec_raw(self) -> u128 {
        self.0
    }

    #[verifier::when_used_as_spec(spec_raw)]
    pub fn raw(self) -> (raw: u128)
        ensures
            raw == self.spec_raw(),
    {
        self.0
    }
}

/// A position in the order in which committed decisions are applied.
#[derive(Clone, Copy, Debug, PartialEq, Eq, Structural, Hash)]
pub struct ApplyIndex(pub u64);

impl ApplyIndex {
    pub open spec fn spec_raw(self) -> u64 {
        self.0
    }

    #[verifier::when_used_as_spec(spec_raw)]
    pub fn raw(self) -> (raw: u64)
        ensures
            raw == self.spec_raw(),
    {
        self.0
    }
}

impl Default for ApplyIndex {
    fn default() -> (at: Self)
        ensures
            at == ApplyIndex(0),
    {
        ApplyIndex(0)
    }
}

/// What is held: who pays whom, how much was reserved, how much of it is left, and the budget it
/// draws on, with that budget's own totals.
#[derive(Clone, Copy, Debug, PartialEq, Eq, Structural)]
pub struct HoldData {
    pub debit_account: AccountId,
    pub credit_account: AccountId,
    pub amount: Amount,
    pub remaining: Amount,
    pub ledger: u32,
    pub budget: BudgetGroup,
    pub budget_members: u32,
    pub budget_remaining: Amount,
}

/// What a committed decision does to the holds.
#[derive(Clone, Copy, Debug, PartialEq, Eq, Structural)]
pub enum PendingEffect {
    /// A hold comes into being.
    Create {
        tx_id: TxId,
        debit_account: AccountId,
        credit_account: AccountId,
        amount: Amount,
        ledger: u32,
        budget: BudgetGroup,
    },
    /// A hold is resolved in part. An amount of zero means that the hold's original size was not to
    /// hand.
    Reduce {
        pending_ref: TxId,
        debit_account: AccountId,
        credit_account: AccountId,
        amount: Amount,
        remaining: Amount,
        ledger: u32,
        budget: BudgetGroup,
    },
    /// A hold is resolved in full.
    Remove { pending_ref: TxId, budget: BudgetGroup, released: Amount },
}

/// What a transfer asks for, as bits.
#[derive(Clone, Copy, Debug, PartialEq, Eq, Structural)]
pub struct TransferFlags(pub u16);

impl TransferFlags {
    pub open spec fn spec_void_pending() -> TransferFlags {
        TransferFlags(8)
    }

    /// The transfer releases what is left of a hold.
    #[verifier::when_used_as_spec(spec_void_pending)]
    pub fn void_pending() -> (flags: TransferFlags)
        ensures
            flags == TransferFlags::spec_void_pending(),
    {
        TransferFlags(8)
    }
}

/// A transfer as it is proposed.
#[derive(Clone, Copy, Debug, PartialEq, Eq, Structural)]
pub struct Transfer {
    pub id: TxId,
    pub pending_ref: TxId,
    pub debit_account: AccountId,
    pub credit_account: AccountId,
    pub amount: Amount,
    pub ledger: u32,
    pub flags: TransferFlags,
}

/// Who releases a hold.
#[derive(Clone, Copy, Debug, PartialEq, Eq, Structural)]
pub enum TransferKind {
    VoidClient,
    VoidExpiry,
}

/// A transfer that releases no hold.
#[derive(Clone, Copy, Debug, PartialEq, Eq, Structural)]
pub struct NotAVoid;

impl Transfer {
    /// Who releases a hold by this transfer: an expiry where the transfer's name is derived from the
    /// hold's.
    pub fn kind(&self) -> (kind: Result<TransferKind, NotAVoid>)
        ensures
            kind == if self.flags != TransferFlags::void_pending() {
                Err::<TransferKind, NotAVoid>(NotAVoid)
            } else if self.id == TxId::expiry_void_of(self.pending_ref) {
                Ok(TransferKind::VoidExpiry)
            } else {
                Ok(TransferKind::VoidClient)
            },
    {
        if self.flags != TransferFlags::void_pending() {
            Err(NotAVoid)
        } else if self.id == TxId::expiry_void_of(self.pending_ref) {
            Ok(TransferKind::VoidExpiry)
        } else {
            Ok(TransferKind::VoidClient)
        }
    }

    pub open spec fn spec_expiry_void(key: TxId, hold: HoldData) -> Transfer {
        Transfer {
            id: TxId::spec_expiry_void_of(key),
            pending_ref: key,
            debit_account: hold.debit_account,
            credit_account: hold.credit_account,
            amount: 0,
            ledger: hold.ledger,
            flags: TransferFlags::spec_void_pending(),
        }
    }

    /// The transfer by which an expired hold is released. It releases whatever is left, so it names no
    /// amount, and offering it twice is harmless.
    #[verifier::when_used_as_spec(spec_expiry_void)]
    pub fn expiry_void(key: TxId, hold: HoldData) -> (void: Transfer)
        ensures
            void == Transfer::spec_expiry_void(key, hold),
    {
        Transfer {
            id: TxId::expiry_void_of(key),
            pending_ref: key,
            debit_account: hold.debit_account,
            credit_account: hold.credit_account,
            amount: 0,
            ledger: hold.ledger,
            flags: TransferFlags::void_pending(),
        }
    }
}

} // verus!
