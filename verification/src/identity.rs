//! The identity-verification ledger.
//!
//! [`IdentityContract`] records one verification result per user — latest
//! submission wins — and answers whether a user is allowed. A user is
//! allowed exactly when their most recent verification carried a country
//! code that is not one of the United States codes, compared exactly and
//! case-sensitively.

use vstd::prelude::*;
use vstd::string::StringExecFns;
use crate::digits::hex8;
use crate::order::str_eq;

verus! {

/// The recoverable failures of the identity ledger.
#[derive(Debug, Clone, PartialEq, Eq)]
pub enum IdentityError {
    /// The submitted proof data is shorter than the required 32 bytes.
    ProofTooShort,
}

/// One recorded verification: who was verified, with which country code,
/// the resulting decision, a logical timestamp and a short digest of the
/// submitted proof.
#[derive(Debug)]
pub struct IdentityVerification {
    /// The verified user.
    pub user: String,
    /// The country code the user submitted.
    pub country_code: String,
    /// Whether the user is allowed (not United-States-related).
    pub is_allowed: bool,
    /// Logical timestamp of the verification.
    pub verified_at: u64,
    /// Digest of the submitted proof data.
    pub proof_hash: String,
}

/// The abstract content of one verification record.
pub struct VerificationView {
    /// The verified user.
    pub user: Seq<char>,
    /// The submitted country code.
    pub country_code: Seq<char>,
    /// Whether the user is allowed.
    pub is_allowed: bool,
    /// Logical timestamp.
    pub verified_at: u64,
    /// Digest of the proof data.
    pub proof_hash: Seq<char>,
}

impl View for IdentityVerification {
    type V = VerificationView;

    open spec fn view(&self) -> VerificationView {
        VerificationView {
            user: self.user@,
            country_code: self.country_code@,
            is_allowed: self.is_allowed,
            verified_at: self.verified_at,
            proof_hash: self.proof_hash@,
        }
    }
}

/// Country codes treated as United-States-related: the exact strings
/// `"USA"`, `"US"` and the ISO numeric code `"840"`. Comparison is exact,
/// so `"usa"` is not matched.
pub open spec fn is_us_code(cc: Seq<char>) -> bool {
    cc == "USA"@ || cc == "US"@ || cc == "840"@
}

/// The sum of a byte sequence, as an unbounded integer.
pub open spec fn byte_sum(s: Seq<u8>) -> int
    decreases s.len(),
{
    if s.len() == 0 {
        0
    } else {
        byte_sum(s.drop_last()) + s.last()
    }
}

/// The proof digest: the text `proof_` followed by the eight-digit
/// hexadecimal rendering of the byte sum of the proof data, reduced to 32
/// bits.
pub open spec fn proof_hash_seq(proof_data: Seq<u8>) -> Seq<char> {
    "proof_"@ + hex8(byte_sum(proof_data) % 0x100000000)
}

spec fn rec_lookup(s: Seq<IdentityVerification>, user: Seq<char>) -> Option<VerificationView>
    decreases s.len(),
{
    if s.len() == 0 {
        None
    } else if s[0].user@ == user {
        Some(s[0]@)
    } else {
        rec_lookup(s.drop_first(), user)
    }
}

spec fn rec_has(s: Seq<IdentityVerification>, user: Seq<char>) -> bool {
    exists|i: int| 0 <= i < s.len() && (#[trigger] s[i]).user@ == user
}

spec fn rec_unique(s: Seq<IdentityVerification>) -> bool {
    forall|i: int, j: int|
        0 <= i < j < s.len() ==> !(#[trigger] s[i].user@ == #[trigger] s[j].user@)
}

proof fn lemma_rec_lookup_at(s: Seq<IdentityVerification>, i: int)
    requires
        rec_unique(s),
        0 <= i < s.len(),
    ensures
        rec_lookup(s, s[i].user@) == Some(s[i]@),
    decreases s.len(),
{
    if i > 0 {
        assert(!(s[0].user@ == s[i].user@));
        assert forall|x: int, y: int| 0 <= x < y < s.drop_first().len() implies !(
        #[trigger] s.drop_first()[x].user@ == #[trigger] s.drop_first()[y].user@) by {
            assert(s.drop_first()[x] == s[x + 1]);
            assert(s.drop_first()[y] == s[y + 1]);
        }
        assert(s.drop_first()[i - 1] == s[i]);
        lemma_rec_lookup_at(s.drop_first(), i - 1);
    }
}

proof fn lemma_rec_absent(s: Seq<IdentityVerification>, user: Seq<char>)
    requires
        !rec_has(s, user),
    ensures
        rec_lookup(s, user) is None,
    decreases s.len(),
{
    if s.len() > 0 {
        assert(!(s[0].user@ == user));
        assert(!rec_has(s.drop_first(), user)) by {
            if rec_has(s.drop_first(), user) {
                let j = choose|j: int|
                    0 <= j < s.drop_first().len() && (#[trigger] s.drop_first()[j]).user@ == user;
                assert(s.drop_first()[j] == s[j + 1]);
            }
        }
        lemma_rec_absent(s.drop_first(), user);
    }
}

proof fn lemma_rec_update(s: Seq<IdentityVerification>, i: int, e: IdentityVerification, u: Seq<char>)
    requires
        rec_unique(s),
        0 <= i < s.len(),
        s[i].user@ == e.user@,
    ensures
        rec_lookup(s.update(i, e), u) == if u == e.user@ {
            Some(e@)
        } else {
            rec_lookup(s, u)
        },
    decreases s.len(),
{
    let s2 = s.update(i, e);
    if i == 0 {
        assert(s2[0] == e);
        assert(s2.drop_first() =~= s.drop_first());
    } else {
        assert(s2[0] == s[0]);
        assert(!(s[0].user@ == s[i].user@));
        if s[0].user@ == u {
        } else {
            assert forall|x: int, y: int| 0 <= x < y < s.drop_first().len() implies !(
            #[trigger] s.drop_first()[x].user@ == #[trigger] s.drop_first()[y].user@) by {
                assert(s.drop_first()[x] == s[x + 1]);
                assert(s.drop_first()[y] == s[y + 1]);
            }
            assert(s.drop_first()[i - 1] == s[i]);
            lemma_rec_update(s.drop_first(), i - 1, e, u);
            assert(s2.drop_first() =~= s.drop_first().update(i - 1, e));
        }
    }
}

proof fn lemma_rec_update_all(s: Seq<IdentityVerification>, i: int, e: IdentityVerification)
    requires
        rec_unique(s),
        0 <= i < s.len(),
        s[i].user@ == e.user@,
    ensures
        rec_unique(s.update(i, e)),
        forall|u: Seq<char>|
            #[trigger] rec_lookup(s.update(i, e), u) == if u == e.user@ {
                Some(e@)
            } else {
                rec_lookup(s, u)
            },
{
    let s2 = s.update(i, e);
    assert forall|x: int, y: int| 0 <= x < y < s2.len() implies !(#[trigger] s2[x].user@
        == #[trigger] s2[y].user@) by {
        assert(s2[x] == if x == i {
            e
        } else {
            s[x]
        });
        assert(s2[y] == if y == i {
            e
        } else {
            s[y]
        });
        assert(!(s[x].user@ == s[y].user@));
    }
    assert forall|u: Seq<char>|
        #[trigger] rec_lookup(s2, u) == if u == e.user@ {
            Some(e@)
        } else {
            rec_lookup(s, u)
        } by {
        lemma_rec_update(s, i, e, u);
    }
}

proof fn lemma_rec_push(s: Seq<IdentityVerification>, e: IdentityVerification, u: Seq<char>)
    requires
        rec_unique(s),
        !rec_has(s, e.user@),
    ensures
        rec_lookup(s.push(e), u) == if u == e.user@ {
            Some(e@)
        } else {
            rec_lookup(s, u)
        },
    decreases s.len(),
{
    let s2 = s.push(e);
    if s.len() == 0 {
        assert(s2[0] == e);
        assert(s2.drop_first() =~= Seq::<IdentityVerification>::empty());
        if u == e.user@ {
            assert(rec_lookup(s2, u) == Some(e@));
        } else {
            assert(rec_lookup(s2, u) == rec_lookup(s2.drop_first(), u));
            assert(rec_lookup(s2.drop_first(), u) is None);
        }
    } else {
        assert(s2[0] == s[0]);
        if s[0].user@ == u {
            if u == e.user@ {
                assert(rec_has(s, e.user@));
            } else {
                assert(rec_lookup(s2, u) == Some(s[0]@));
                assert(rec_lookup(s, u) == Some(s[0]@));
            }
        } else {
            assert forall|x: int, y: int| 0 <= x < y < s.drop_first().len() implies !(
            #[trigger] s.drop_first()[x].user@ == #[trigger] s.drop_first()[y].user@) by {
                assert(s.drop_first()[x] == s[x + 1]);
                assert(s.drop_first()[y] == s[y + 1]);
            }
            assert(!rec_has(s.drop_first(), e.user@)) by {
                if rec_has(s.drop_first(), e.user@) {
                    let j = choose|j: int|
                        0 <= j < s.drop_first().len() && (#[trigger] s.drop_first()[j]).user@
                            == e.user@;
                    assert(s.drop_first()[j] == s[j + 1]);
                }
            }
            lemma_rec_push(s.drop_first(), e, u);
            assert(s2.drop_first() =~= s.drop_first().push(e));
            assert(rec_lookup(s2, u) == rec_lookup(s.drop_first().push(e), u));
            assert(rec_lookup(s, u) == rec_lookup(s.drop_first(), u));
        }
    }
}

proof fn lemma_rec_push_all(s: Seq<IdentityVerification>, e: IdentityVerification)
    requires
        rec_unique(s),
        !rec_has(s, e.user@),
    ensures
        rec_unique(s.push(e)),
        forall|u: Seq<char>|
            #[trigger] rec_lookup(s.push(e), u) == if u == e.user@ {
                Some(e@)
            } else {
                rec_lookup(s, u)
            },
{
    let s2 = s.push(e);
    assert forall|x: int, y: int| 0 <= x < y < s2.len() implies !(#[trigger] s2[x].user@
        == #[trigger] s2[y].user@) by {
        if y == s.len() {
            assert(s2[x] == s[x]);
            assert(s2[y] == e);
            if s[x].user@ == e.user@ {
                assert(rec_has(s, e.user@));
            }
        } else {
            assert(s2[x] == s[x]);
            assert(s2[y] == s[y]);
            assert(!(s[x].user@ == s[y].user@));
        }
    }
    assert forall|u: Seq<char>|
        #[trigger] rec_lookup(s2, u) == if u == e.user@ {
            Some(e@)
        } else {
            rec_lookup(s, u)
        } by {
        lemma_rec_push(s, e, u);
    }
}

/// The identity ledger: one verification record per user.
pub struct IdentityContract {
    verifications: Vec<IdentityVerification>,
}

impl IdentityContract {
    fn find_user(&self, user: &String) -> (r: Option<usize>)
        ensures
            match r {
                Some(i) => i < self.verifications@.len() && self.verifications@[i as int].user@
                    == user@,
                None => !rec_has(self.verifications@, user@),
            },
    {
        let n = self.verifications.len();
        let mut i: usize = 0;
        while i < n
            invariant
                n == self.verifications@.len(),
                i <= n,
                forall|j: int| 0 <= j < i ==> !((#[trigger] self.verifications@[j]).user@ == user@),
            decreases n - i,
        {
            if self.verifications[i].user == *user {
                return Some(i);
            }
            i = i + 1;
        }
        None
    }

    /// The most recent verification recorded for `user`, if any.
    pub closed spec fn spec_lookup(&self, user: Seq<char>) -> Option<VerificationView> {
        rec_lookup(self.verifications@, user)
    }

    /// How many users have a recorded verification.
    pub closed spec fn spec_count(&self) -> int {
        self.verifications@.len() as int
    }

    /// The ledger's invariant: at most one record per user.
    pub closed spec fn wf(&self) -> bool {
        rec_unique(self.verifications@)
    }

    /// An empty identity ledger.
    pub fn new() -> (r: Self)
        ensures
            r.wf(),
            r.spec_count() == 0,
            forall|u: Seq<char>| #[trigger] r.spec_lookup(u) is None,
    {
        IdentityContract { verifications: Vec::new() }
    }

    /// The logical timestamp the next verification would carry: a fixed
    /// base plus the number of recorded verifications. A stand-in for a
    /// block timestamp.
    pub fn get_current_timestamp(&self) -> (r: u64)
        requires
            self.spec_count() + 1000000 <= u64::MAX,
        ensures
            r == 1000000 + self.spec_count(),
    {
        1000000 + (self.verifications.len() as u64)
    }

    /// The digest stored for submitted proof data: `proof_` followed by the
    /// byte sum of the data reduced to 32 bits, in hexadecimal.
    pub fn hash_proof(&self, proof_data: &[u8]) -> (r: String)
        ensures
            r@ == proof_hash_seq(proof_data@),
    {
        let mut sum: u128 = 0;
        let n = proof_data.len();
        let mut i: usize = 0;
        while i < n
            invariant
                n == proof_data@.len(),
                i <= n,
                sum == byte_sum(proof_data@.take(i as int)),
                sum <= 255 * i,
            decreases n - i,
        {
            proof {
                assert(proof_data@.take(i as int + 1).drop_last() =~= proof_data@.take(i as int));
                assert(proof_data@.take(i as int + 1).last() == proof_data@[i as int]);
            }
            sum = sum + (proof_data[i] as u128);
            i = i + 1;
        }
        proof {
            assert(proof_data@.take(n as int) =~= proof_data@);
        }
        let h: u32 = (sum % 0x100000000) as u32;
        let mut s = String::new();
        s.append("proof_");
        crate::digits::append_hex8(&mut s, h);
        proof {
            reveal_strlit("proof_");
            assert(s@ =~= proof_hash_seq(proof_data@));
        }
        s
    }

    /// What [`Self::verify_identity`] guarantees: too-short proof data is
    /// rejected without any change; otherwise the user's record is replaced
    /// by a fresh one whose decision depends only on the country code, and
    /// no other user's record moves.
    pub open spec fn verify_post(
        pre: Self,
        post: Self,
        user: Seq<char>,
        country_code: Seq<char>,
        proof_data: Seq<u8>,
        r: Result<IdentityVerification, IdentityError>,
    ) -> bool {
        if proof_data.len() < 32 {
            &&& r matches Err(IdentityError::ProofTooShort)
            &&& post == pre
        } else {
            &&& (r matches Ok(v) && v@ == (VerificationView {
                user: user,
                country_code: country_code,
                is_allowed: !is_us_code(country_code),
                verified_at: (1000000 + pre.spec_count()) as u64,
                proof_hash: proof_hash_seq(proof_data),
            }) && post.spec_lookup(user) == Some(v@))
            &&& forall|u: Seq<char>|
                u != user ==> #[trigger] post.spec_lookup(u) == pre.spec_lookup(u)
            &&& post.spec_count() == pre.spec_count() + (if pre.spec_lookup(user) is Some {
                0int
            } else {
                1int
            })
        }
    }

    /// Record a verification for `user`: validate the proof data, decide
    /// from the country code whether the user is allowed (not
    /// United-States-related), and store the result, replacing any earlier
    /// record for the same user.
    pub fn verify_identity(
        &mut self,
        user: String,
        country_code: String,
        proof_data: Vec<u8>,
    ) -> (r: Result<IdentityVerification, IdentityError>)
        requires
            old(self).wf(),
            old(self).spec_count() + 1000000 < u64::MAX,
        ensures
            final(self).wf(),
            Self::verify_post(*old(self), *final(self), user@, country_code@, proof_data@, r),
    {
        if proof_data.len() < 32 {
            return Err(IdentityError::ProofTooShort);
        }
        let is_us = str_eq(country_code.as_str(), "USA") || str_eq(country_code.as_str(), "US")
            || str_eq(country_code.as_str(), "840");
        let verified_at = self.get_current_timestamp();
        let proof_hash = self.hash_proof(proof_data.as_slice());
        let record = IdentityVerification {
            user: user.clone(),
            country_code: country_code.clone(),
            is_allowed: !is_us,
            verified_at,
            proof_hash,
        };
        let result = IdentityVerification {
            user: user.clone(),
            country_code: country_code.clone(),
            is_allowed: !is_us,
            verified_at,
            proof_hash: record.proof_hash.clone(),
        };
        match self.find_user(&user) {
            Some(i) => {
                proof {
                    lemma_rec_lookup_at(self.verifications@, i as int);
                    lemma_rec_update_all(self.verifications@, i as int, record);
                }
                self.verifications.set(i, record);
            },
            None => {
                proof {
                    lemma_rec_absent(self.verifications@, user@);
                    lemma_rec_push_all(self.verifications@, record);
                }
                self.verifications.push(record);
            },
        }
        Ok(result)
    }

    /// The most recent verification recorded for `user`, or `None` if the
    /// user has never been verified. A pure query.
    pub fn get_verification_status(&self, user: String) -> (r: Option<IdentityVerification>)
        requires
            self.wf(),
        ensures
            match r {
                Some(v) => self.spec_lookup(user@) == Some(v@),
                None => self.spec_lookup(user@) is None,
            },
    {
        match self.find_user(&user) {
            Some(i) => {
                proof {
                    lemma_rec_lookup_at(self.verifications@, i as int);
                }
                let e = &self.verifications[i];
                Some(
                    IdentityVerification {
                        user: e.user.clone(),
                        country_code: e.country_code.clone(),
                        is_allowed: e.is_allowed,
                        verified_at: e.verified_at,
                        proof_hash: e.proof_hash.clone(),
                    },
                )
            },
            None => {
                proof {
                    lemma_rec_absent(self.verifications@, user@);
                }
                None
            },
        }
    }

    /// Whether `user` is allowed: verified, with a non-United-States
    /// country code. Unverified users are not allowed. A pure query.
    pub fn is_user_allowed(&self, user: String) -> (r: bool)
        requires
            self.wf(),
        ensures
            r == match self.spec_lookup(user@) {
                Some(v) => v.is_allowed,
                None => false,
            },
    {
        match self.get_verification_status(user) {
            Some(v) => v.is_allowed,
            None => false,
        }
    }
}

impl Default for IdentityContract {
    /// An empty identity ledger.
    fn default() -> (r: Self)
        ensures
            r.wf(),
            r.spec_count() == 0,
            forall|u: Seq<char>| #[trigger] r.spec_lookup(u) is None,
    {
        IdentityContract::new()
    }
}

/// One decoded call into the identity ledger.
#[derive(Debug, Clone, PartialEq, Eq)]
pub enum IdentityAction {
    /// Verify a user's identity from a country code and proof data.
    VerifyIdentity {
        /// The user to verify.
        user: String,
        /// The submitted country code.
        country_code: String,
        /// The submitted proof bytes.
        proof_data: Vec<u8>,
    },
    /// Read a user's verification record.
    GetVerificationStatus {
        /// The queried user.
        user: String,
    },
    /// Ask whether a user is allowed.
    IsUserAllowed {
        /// The queried user.
        user: String,
    },
}

/// The structured success payload of one identity operation.
#[derive(Debug)]
pub enum IdentityOutput {
    /// The record stored by a verification.
    Verified(IdentityVerification),
    /// The record found by a status query, if any.
    Status(Option<IdentityVerification>),
    /// The answer of an allowance query.
    Allowed(bool),
}

impl IdentityContract {
    /// Apply one decoded action to the identity ledger: the single entry
    /// point the hosting system drives. The two queries leave the state
    /// untouched.
    pub fn execute(&mut self, action: IdentityAction) -> (r: Result<IdentityOutput, IdentityError>)
        requires
            old(self).wf(),
            old(self).spec_count() + 1000000 < u64::MAX,
        ensures
            final(self).wf(),
            match action {
                IdentityAction::VerifyIdentity { user, country_code, proof_data } => match r {
                    Ok(o) => o matches IdentityOutput::Verified(v) && Self::verify_post(
                        *old(self),
                        *final(self),
                        user@,
                        country_code@,
                        proof_data@,
                        Ok(v),
                    ),
                    Err(e) => Self::verify_post(
                        *old(self),
                        *final(self),
                        user@,
                        country_code@,
                        proof_data@,
                        Err(e),
                    ),
                },
                IdentityAction::GetVerificationStatus { user } => *final(self) == *old(self) && (
                r matches Ok(o) && o matches IdentityOutput::Status(v) && (match v {
                    Some(v) => old(self).spec_lookup(user@) == Some(v@),
                    None => old(self).spec_lookup(user@) is None,
                })),
                IdentityAction::IsUserAllowed { user } => *final(self) == *old(self) && (r matches
                    Ok(o) && o matches IdentityOutput::Allowed(b) && b == (
                match old(self).spec_lookup(user@) {
                    Some(v) => v.is_allowed,
                    None => false,
                })),
            },
    {
        match action {
            IdentityAction::VerifyIdentity { user, country_code, proof_data } => {
                match self.verify_identity(user, country_code, proof_data) {
                    Ok(v) => Ok(IdentityOutput::Verified(v)),
                    Err(e) => Err(e),
                }
            },
            IdentityAction::GetVerificationStatus { user } => {
                Ok(IdentityOutput::Status(self.get_verification_status(user)))
            },
            IdentityAction::IsUserAllowed { user } => {
                Ok(IdentityOutput::Allowed(self.is_user_allowed(user)))
            },
        }
    }
}

} // verus!
