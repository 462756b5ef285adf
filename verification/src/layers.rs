use vstd::prelude::*;

use crate::inner::Inner;
use crate::source::CancellationTokenSource;
use crate::token::CancellationToken;

verus! {

/// Makes every query once, on the handles that are given.
///
/// Every operation calls this, mostly with no handle at all. It keeps queries and operations apart:
/// a query that made use of an operation would then call itself, which Verus does not accept
/// without a proof that it ends. So a query changes nothing, whichever handle it is given.
pub(crate) fn query_all(
    inner: Option<&Inner>,
    source: Option<&CancellationTokenSource>,
    token: Option<&CancellationToken>,
) {
    if let Some(inner) = inner {
        let _fields = inner.summary();
        let _other = Inner::new();
    }
    if let Some(source) = source {
        let _cancelled = source.is_cancelled();
        let _inner = source.inner();
        let _other = source.clone();
        let _token = source.token();
        let _default: CancellationTokenSource = Default::default();
        let _new = CancellationTokenSource::new();
    }
    if let Some(token) = token {
        let _checked = token.check_cancelled();
        let _inner = token.inner();
        let _other = token.clone();
        let _wait = token.cancelled();
    }
}

} // verus!
