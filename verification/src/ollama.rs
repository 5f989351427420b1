//! Batching the texts sent to the embedding service.

use vstd::prelude::*;

verus! {

/// Number of texts sent to the embedding service in one request.
pub const BATCH_SIZE: usize = 50;

/// The `[start, end)` ranges of the batches of `n` texts, in order, as
/// `slice::chunks(BATCH_SIZE)` cuts them: every batch full but the last.
pub open spec fn batch_range(n: int, k: int) -> (int, int) {
    let start = k * BATCH_SIZE;
    (start, if start + BATCH_SIZE < n {
        start + BATCH_SIZE
    } else {
        n
    })
}

/// Number of batches of `n` texts.
pub open spec fn batch_count(n: int) -> int {
    (n + BATCH_SIZE - 1) / (BATCH_SIZE as int)
}

/// Every text falls in exactly one batch, and batches come in order: batch `k` starts where
/// batch `k - 1` ends, the first starts at 0 and the last ends at `n`; every batch but the
/// last holds exactly `BATCH_SIZE` texts, so there is no batch more than needed.
pub proof fn law_batches_cover(n: int)
    requires
        n >= 0,
    ensures
        n > 0 ==> batch_range(n, 0).0 == 0 && batch_range(n, batch_count(n) - 1).1 == n,
        forall|k: int| 0 < k < batch_count(n) ==> #[trigger] batch_range(n, k).0 == batch_range(n, k - 1).1,
        forall|k: int|
            0 <= k < batch_count(n) ==> #[trigger] batch_range(n, k).0 < batch_range(n, k).1 <= batch_range(n, k).0
                + BATCH_SIZE,
        forall|k: int|
            0 <= k < batch_count(n) - 1 ==> #[trigger] batch_range(n, k).1 == batch_range(n, k).0
                + BATCH_SIZE,
        batch_count(n) * BATCH_SIZE < n + BATCH_SIZE,
{
    assert forall|k: int| 0 <= k < batch_count(n) - 1 implies #[trigger] batch_range(n, k).1
        == batch_range(n, k).0 + BATCH_SIZE by {
        assert(k * 50 + 50 < n) by (nonlinear_arith)
            requires
                k < (n + 49) / 50 - 1,
                k >= 0,
        ;
    }
    assert(((n + 49) / 50) * 50 < n + 50) by (nonlinear_arith)
        requires
            n >= 0,
    ;
    assert forall|k: int| 0 < k < batch_count(n) implies #[trigger] batch_range(n, k).0 == batch_range(n, k - 1).1 by {
        assert(k * 50 <= n - 1) by (nonlinear_arith)
            requires
                k < (n + 49) / 50,
                k >= 0,
        ;
        assert(k * 50 == (k - 1) * 50 + 50) by (nonlinear_arith);
    }
    assert forall|k: int|
        0 <= k < batch_count(n) implies #[trigger] batch_range(n, k).0 < batch_range(n, k).1 <= batch_range(n, k).0
            + BATCH_SIZE by {
        assert(k * 50 <= n - 1) by (nonlinear_arith)
            requires
                k < (n + 49) / 50,
                k >= 0,
        ;
    }
    if n > 0 {
        let c = batch_count(n);
        assert((c - 1) * 50 + 50 >= n) by (nonlinear_arith)
            requires
                c == (n + 49) / 50,
        ;
    }
}

/// Where a run of embedding requests stands. Texts `next..total` have not been sent yet;
/// while `retry < retry_end`, the texts `retry..retry_end` of a batch that failed are
/// being sent one by one.
pub struct EmbedProgress {
    pub total: usize,
    pub next: usize,
    pub retry: usize,
    pub retry_end: usize,
}

impl EmbedProgress {
    pub open spec fn wf(&self) -> bool {
        &&& self.next <= self.total
        &&& self.retry <= self.retry_end <= self.next
        &&& ((self.next as int) % (BATCH_SIZE as int) == 0 || self.next == self.total)
    }

    /// How much is left to do; every request lowers it.
    pub open spec fn work_left(&self) -> int {
        2 * (self.total - self.next) + (self.retry_end - self.retry)
    }
}

/// The next request of an embedding run.
pub enum EmbedRequest {
    /// Send the texts `start..end` in one request.
    Batch { start: usize, end: usize },
    /// Send text `index` alone.
    Single { index: usize },
    /// All texts have been sent.
    Finished,
}

/// The request that comes next in a run standing at `p`.
pub open spec fn request_for(p: EmbedProgress) -> EmbedRequest {
    if p.retry < p.retry_end {
        EmbedRequest::Single { index: p.retry }
    } else if p.next < p.total {
        EmbedRequest::Batch {
            start: p.next,
            end: batch_range(p.total as int, (p.next as int) / (BATCH_SIZE as int)).1 as usize,
        }
    } else {
        EmbedRequest::Finished
    }
}

/// Where a run standing at `p` stands once `request_for(p)` was made.
pub open spec fn advanced(p: EmbedProgress, batch_failed: bool) -> EmbedProgress {
    if p.retry < p.retry_end {
        EmbedProgress { retry: (p.retry + 1) as usize, ..p }
    } else if p.next < p.total {
        let end = batch_range(p.total as int, (p.next as int) / (BATCH_SIZE as int)).1 as usize;
        EmbedProgress {
            total: p.total,
            next: end,
            retry: if batch_failed {
                p.next
            } else {
                end
            },
            retry_end: end,
        }
    } else {
        p
    }
}

/// A run over `total` texts after `k` requests, none of which failed.
pub open spec fn run_without_failures(total: usize, k: nat) -> EmbedProgress
    decreases k,
{
    if k == 0 {
        EmbedProgress { total, next: 0, retry: 0, retry_end: 0 }
    } else {
        advanced(run_without_failures(total, (k - 1) as nat), false)
    }
}

/// When no request fails, request `k` of a run is batch `k` of `batch_range`: the batches
/// go out one after the other, each once, and then nothing is left to send.
pub proof fn law_run_sends_each_batch_once(total: usize)
    ensures
        forall|k: nat|
            k < batch_count(total as int) ==> request_for(#[trigger] run_without_failures(total, k))
                == (EmbedRequest::Batch {
                start: batch_range(total as int, k as int).0 as usize,
                end: batch_range(total as int, k as int).1 as usize,
            }),
        request_for(run_without_failures(total, batch_count(total as int) as nat))
            == EmbedRequest::Finished,
{
    let n = total as int;
    let c = batch_count(n);
    assert forall|k: nat| k < c implies request_for(#[trigger] run_without_failures(total, k))
        == (EmbedRequest::Batch {
        start: batch_range(n, k as int).0 as usize,
        end: batch_range(n, k as int).1 as usize,
    }) by {
        lemma_run_without_failures(total, k);
        assert((k as int * 50) / 50 == k) by (nonlinear_arith);
    }
    lemma_run_without_failures(total, c as nat);
}

/// After `k` requests of a run without failures, the first `k` batches have been sent.
proof fn lemma_run_without_failures(total: usize, k: nat)
    requires
        k <= batch_count(total as int),
    ensures
        run_without_failures(total, k).total == total,
        run_without_failures(total, k).next == if k == batch_count(total as int) {
            total as int
        } else {
            k * BATCH_SIZE
        },
        run_without_failures(total, k).retry == run_without_failures(total, k).next,
        run_without_failures(total, k).retry_end == run_without_failures(total, k).next,
        k < batch_count(total as int) ==> k * BATCH_SIZE < total,
    decreases k,
{
    let n = total as int;
    let c = batch_count(n);
    if k > 0 {
        lemma_run_without_failures(total, (k - 1) as nat);
        let p = run_without_failures(total, (k - 1) as nat);
        assert(((k - 1) * 50) / 50 == k - 1) by (nonlinear_arith);
        assert((k - 1) * 50 + 50 == k * 50) by (nonlinear_arith);
        assert(k < c ==> k * 50 < n) by (nonlinear_arith)
            requires
                c == (n + 49) / 50,
                k >= 0,
        ;
        assert(k == c ==> k * 50 >= n) by (nonlinear_arith)
            requires
                c == (n + 49) / 50,
        ;
        assert(k == c ==> (k - 1) * 50 < n) by (nonlinear_arith)
            requires
                c == (n + 49) / 50,
                n >= 0,
                k >= 1,
        ;
    } else {
        assert(0 < c ==> 0 < n) by (nonlinear_arith)
            requires
                c == (n + 49) / 50,
                n >= 0,
        ;
    }
}

/// A run standing at `p` after `m` more requests, none of them a failed batch.
pub open spec fn advanced_times(p: EmbedProgress, m: nat) -> EmbedProgress
    decreases m,
{
    if m == 0 {
        p
    } else {
        advanced(advanced_times(p, (m - 1) as nat), false)
    }
}

/// When a batch fails, each of its texts is then sent alone, in order, and after the last
/// of them the run goes on with the next batch.
pub proof fn law_failed_batch_is_retried_text_by_text(p: EmbedProgress)
    requires
        p.wf(),
        p.retry >= p.retry_end,
        p.next < p.total,
    ensures
        ({
            let start = p.next;
            let end = batch_range(p.total as int, (p.next as int) / (BATCH_SIZE as int)).1;
            let q = advanced(p, true);
            &&& request_for(p) == (EmbedRequest::Batch { start, end: end as usize })
            &&& forall|m: nat|
                m < end - start ==> request_for(#[trigger] advanced_times(q, m))
                    == (EmbedRequest::Single { index: (start + m) as usize })
            &&& advanced_times(q, (end - start) as nat) == (EmbedProgress {
                total: p.total,
                next: end as usize,
                retry: end as usize,
                retry_end: end as usize,
            })
        }),
{
    let start = p.next;
    let end = batch_range(p.total as int, (p.next as int) / (BATCH_SIZE as int)).1;
    let q = advanced(p, true);
    assert((p.next / 50) * 50 == p.next) by (nonlinear_arith)
        requires
            p.next % 50 == 0,
    ;
    assert forall|m: nat| m <= end - start implies #[trigger] advanced_times(q, m) == (EmbedProgress {
        total: p.total,
        next: end as usize,
        retry: (start + m) as usize,
        retry_end: end as usize,
    }) by {
        lemma_advanced_times_retry(q, m);
    }
    assert(advanced_times(q, (end - start) as nat) == (EmbedProgress {
        total: p.total,
        next: end as usize,
        retry: end as usize,
        retry_end: end as usize,
    }));
}

proof fn lemma_advanced_times_retry(q: EmbedProgress, m: nat)
    requires
        m <= q.retry_end - q.retry,
    ensures
        advanced_times(q, m) == (EmbedProgress { retry: (q.retry + m) as usize, ..q }),
    decreases m,
{
    if m > 0 {
        lemma_advanced_times_retry(q, (m - 1) as nat);
    }
}

/// A run over `total` texts that has sent nothing yet.
pub fn embed_begin(total: usize) -> (p: EmbedProgress)
    ensures
        p.wf(),
        p.total == total && p.next == 0 && p.retry == 0 && p.retry_end == 0,
{
    EmbedProgress { total, next: 0, retry: 0, retry_end: 0 }
}

/// What to send next: the texts of a failed batch one by one, then the next batch of at
/// most `BATCH_SIZE` texts, then nothing.
pub fn embed_request(p: &EmbedProgress) -> (r: EmbedRequest)
    requires
        p.wf(),
    ensures
        p.retry < p.retry_end ==> r == (EmbedRequest::Single { index: p.retry }),
        p.retry >= p.retry_end && p.next < p.total ==> r == (EmbedRequest::Batch {
            start: p.next,
            end: batch_range(p.total as int, (p.next as int) / (BATCH_SIZE as int)).1 as usize,
        }) && p.next == batch_range(p.total as int, (p.next as int) / (BATCH_SIZE as int)).0,
        p.retry >= p.retry_end && p.next >= p.total ==> r == EmbedRequest::Finished,
        r == request_for(*p),
{
    if p.retry < p.retry_end {
        EmbedRequest::Single { index: p.retry }
    } else if p.next < p.total {
        let end = if p.total - p.next > BATCH_SIZE {
            p.next + BATCH_SIZE
        } else {
            p.total
        };
        assert((p.next / 50) * 50 == p.next) by (nonlinear_arith)
            requires
                p.next % 50 == 0,
        ;
        EmbedRequest::Batch { start: p.next, end }
    } else {
        EmbedRequest::Finished
    }
}

/// The run after the request `embed_request(p)` was made; `batch_failed` tells whether a
/// batch request failed, in which case its texts are sent again one by one.
pub fn embed_after(p: EmbedProgress, batch_failed: bool) -> (q: EmbedProgress)
    requires
        p.wf(),
    ensures
        q.wf(),
        q.total == p.total,
        p.retry < p.retry_end ==> q.retry == p.retry + 1 && q.retry_end == p.retry_end && q.next
            == p.next,
        p.retry >= p.retry_end && p.next < p.total ==> q.next == batch_range(
            p.total as int,
            (p.next as int) / (BATCH_SIZE as int),
        ).1 && (if batch_failed {
            q.retry == p.next && q.retry_end == q.next
        } else {
            q.retry == q.next && q.retry_end == q.next
        }),
        p.retry >= p.retry_end && p.next >= p.total ==> q == p,
        p.retry < p.retry_end || p.next < p.total ==> q.work_left() < p.work_left(),
        q.work_left() >= 0,
        q == advanced(p, batch_failed),
{
    if p.retry < p.retry_end {
        EmbedProgress { total: p.total, next: p.next, retry: p.retry + 1, retry_end: p.retry_end }
    } else if p.next < p.total {
        let end = if p.total - p.next > BATCH_SIZE {
            p.next + BATCH_SIZE
        } else {
            p.total
        };
        assert((p.next / 50) * 50 == p.next) by (nonlinear_arith)
            requires
                p.next % 50 == 0,
        ;
        assert(end == p.total || end % 50 == 0) by (nonlinear_arith)
            requires
                p.next % 50 == 0,
                end == p.next + 50 || end == p.total,
        ;
        if batch_failed {
            EmbedProgress { total: p.total, next: end, retry: p.next, retry_end: end }
        } else {
            EmbedProgress { total: p.total, next: end, retry: end, retry_end: end }
        }
    } else {
        p
    }
}

/// The first embedding returned by the service, or an error when there is none.
pub fn first_embedding<T>(embeddings: Vec<T>) -> (r: Result<T, String>)
    ensures
        embeddings@.len() > 0 <==> r is Ok,
        r matches Ok(e) ==> e == embeddings@[0],
        r matches Err(msg) ==> msg@ == "No embedding returned"@,
{
    let mut v = embeddings;
    if v.len() == 0 {
        return Err("No embedding returned".to_string());
    }
    let e = v.swap_remove(0);
    Ok(e)
}

} // verus!
