//! A security token fetched on demand and kept until it expires.
use vstd::prelude::*;

use crate::clock::now_millis;

verus! {

/// A token and the time (in milliseconds) from which it is no longer valid.
pub enum TokenState {
    Empty,
    Valid(String, u64),
}

/// `r` and the token then held are what the acquirer `f` may return: a
/// token is kept and handed out, an error is handed out and nothing is kept.
pub open spec fn acquired<F: Fn() -> Result<(String, u64), String>>(
    f: F,
    r: Result<String, String>,
    held: Option<(Seq<char>, u64)>,
) -> bool {
    exists|res: Result<(String, u64), String>|
        #[trigger] f.ensures((), res) && match res {
            Ok((s, e)) => r == Ok::<String, String>(s) && held == Some((s@, e)),
            Err(msg) => r == Err::<String, String>(msg) && held is None,
        }
}

/// Hands out a valid token, asking `acquire` for a new one only when there
/// is none or it has expired.
pub struct TokenManager<F> {
    acquire: F,
    state: TokenState,
}

impl<F: Fn() -> Result<(String, u64), String>> TokenManager<F> {
    /// The token held and its expiry, if any.
    pub closed spec fn held(&self) -> Option<(Seq<char>, u64)> {
        match self.state {
            TokenState::Empty => None,
            TokenState::Valid(t, e) => Some((t@, e)),
        }
    }

    /// Whether a token is held that has not expired at `now`.
    pub open spec fn fresh(&self, now: u64) -> bool {
        match self.held() {
            Some((_t, e)) => now < e,
            None => false,
        }
    }

    pub closed spec fn acquirer(&self) -> F {
        self.acquire
    }

    /// A manager that holds no token yet.
    pub fn new(acquire: F) -> (r: Self)
        ensures
            r.held() is None,
            r.acquirer() == acquire,
    {
        TokenManager { acquire, state: TokenState::Empty }
    }

    /// The token at time `now`: the one held while `now` is before its
    /// expiry, else a new one from the acquirer, which is kept; on an error
    /// from the acquirer nothing is kept and the error is returned.
    pub fn get_token_at(&mut self, now: u64) -> (r: Result<String, String>)
        requires
            old(self).acquirer().requires(()),
        ensures
            final(self).acquirer() == old(self).acquirer(),
            old(self).fresh(now) ==> (r is Ok && r->Ok_0@ == old(self).held()->Some_0.0
                && final(self).held() == old(self).held()),
            !old(self).fresh(now) ==> acquired(old(self).acquirer(), r, final(self).held()),
    {
        if let TokenState::Valid(t, e) = &self.state {
            if now < *e {
                return Ok(t.clone());
            }
        }
        let res = (self.acquire)();
        let ghost got = res;
        match res {
            Ok((s, e)) => {
                let out = s.clone();
                self.state = TokenState::Valid(s, e);
                assert(self.acquirer().ensures((), got));
                Ok(out)
            },
            Err(msg) => {
                self.state = TokenState::Empty;
                assert(self.acquirer().ensures((), got));
                Err(msg)
            },
        }
    }

    /// The token now, as `get_token_at` gives it for the current time.
    pub fn get_token(&mut self) -> (r: Result<String, String>)
        requires
            old(self).acquirer().requires(()),
        ensures
            final(self).acquirer() == old(self).acquirer(),
            r is Ok ==> (final(self).held() is Some && r->Ok_0@ == final(self).held()->Some_0.0),
            r is Err ==> final(self).held() is None,
            old(self).held() is None ==> acquired(old(self).acquirer(), r, final(self).held()),
            old(self).held() is Some ==> (r is Ok && r->Ok_0@ == old(self).held()->Some_0.0
                && final(self).held() == old(self).held()) || acquired(old(self).acquirer(), r, final(self).held()),
    {
        let now = now_millis();
        self.get_token_at(now)
    }

    /// The token held, if `now` is before its expiry; never asks for a new one.
    pub fn try_get_token_at(&self, now: u64) -> (r: Option<String>)
        ensures
            self.fresh(now) ==> (r is Some && r->Some_0@ == self.held()->Some_0.0),
            !self.fresh(now) ==> r is None,
    {
        match &self.state {
            TokenState::Valid(t, e) => {
                if now < *e {
                    Some(t.clone())
                } else {
                    None
                }
            },
            TokenState::Empty => None,
        }
    }

    /// The token held, if it has not expired yet.
    pub fn try_get_token(&self) -> (r: Option<String>)
        ensures
            r is Some ==> (self.held() is Some && r->Some_0@ == self.held()->Some_0.0),
            self.held() is None ==> r is None,
    {
        let now = now_millis();
        self.try_get_token_at(now)
    }
}

} // verus!
