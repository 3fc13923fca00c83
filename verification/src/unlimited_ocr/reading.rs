//! Reading a page: the prompt around the image, and the choice of each token.
use vstd::prelude::*;

use crate::tape::{bin, un, Op, Tape, Tensor, Val};
use crate::unlimited_ocr::moe::{is_nan, magnitude};
use crate::unlimited_ocr::towers::Rows;

verus! {

/// The token that stands for a piece of the image.
pub const IMAGE_TOKEN_ID: u32 = 128815;

/// The token that ends a page.
pub const EOS: u32 = 1;

/// The token of a space that stands alone.
pub const SPACE_TOKEN_ID: u32 = 223;

/// No run of this many tokens is repeated,
pub const NGRAM_SIZE: usize = 35;

/// as far back as this many tokens.
pub const NGRAM_WINDOW: usize = 128;

/// Bits of minus infinity in single precision.
pub const NEG_INFINITY: u32 = 0xff80_0000;

/// The instruction without the space that a tokenizer may leave at its end.
pub open spec fn trimmed(tail: Seq<u32>) -> Seq<u32> {
    if tail.len() > 0 && tail.last() == SPACE_TOKEN_ID {
        tail.drop_last()
    } else {
        tail
    }
}

/// A start token, a place for each piece of the image, the instruction.
pub open spec fn prompt(n_image: int, tail: Seq<u32>) -> Seq<u32> {
    seq![0u32] + Seq::new(n_image as nat, |i: int| IMAGE_TOKEN_ID) + trimmed(tail)
}

pub fn prompt_ids(n_image: usize, tail: &Vec<u32>) -> (ids: Vec<u32>)
    ensures
        ids@ == prompt(n_image as int, tail@),
{
    let mut ids: Vec<u32> = Vec::new();
    ids.push(0);
    let mut i: usize = 0;
    while i < n_image
        invariant
            i <= n_image,
            ids@ == seq![0u32] + Seq::new(i as nat, |i: int| IMAGE_TOKEN_ID),
        decreases n_image - i,
    {
        ids.push(IMAGE_TOKEN_ID);
        i += 1;
        assert(ids@ =~= seq![0u32] + Seq::new(i as nat, |i: int| IMAGE_TOKEN_ID));
    }
    let n: usize = tail.len();
    let keep: usize = if n > 0 && tail[n - 1] == SPACE_TOKEN_ID { n - 1 } else { n };
    let ghost head = ids@;
    let mut j: usize = 0;
    while j < keep
        invariant
            j <= keep <= tail.len(),
            ids@ == head + tail@.take(j as int),
        decreases keep - j,
    {
        ids.push(tail[j]);
        assert(tail@.take(j + 1) =~= tail@.take(j as int).push(tail@[j as int]));
        j += 1;
    }
    assert(tail@.take(keep as int) =~= trimmed(tail@));
    ids
}

/// Embeddings of a prompt with those of the image in the places kept for them.
pub open spec fn spliced(embedded: Val, image: Val, n_image: usize) -> Val {
    let rest = (embedded.shape.d1 - 1 - n_image) as usize;
    bin(
        Op::Cat(1),
        bin(
            Op::Cat(1),
            un(Op::Narrow { dim: 1, start: 0, len: 1 }, embedded),
            un(Op::ToDType(embedded.dtype), un(Op::Unsqueeze(0), image)),
        ),
        un(Op::Narrow { dim: 1, start: (1 + n_image) as usize, len: rest }, embedded),
    )
}

/// Records the splice of `n_image` rows over the places kept for them.
pub fn splice(t: &mut Tape, embedded: Tensor, image: Tensor, n_image: usize) -> (r: Tensor)
    requires
        old(t).has(embedded),
        old(t).has(image),
        n_image < embedded.shape.d1,
    ensures
        final(t).computed(*old(t)),
        final(t).has(r),
        r@ == spliced(embedded@, image@, n_image),
{
    let rest: usize = embedded.shape.d1 - 1 - n_image;
    let first = t.un(Op::Narrow { dim: 1, start: 0, len: 1 }, embedded);
    let middle = t.un(Op::Unsqueeze(0), image);
    let middle = t.un(Op::ToDType(embedded.dtype), middle);
    let last = t.un(Op::Narrow { dim: 1, start: 1 + n_image, len: rest }, embedded);
    let joined = t.bin(Op::Cat(1), first, middle);
    t.bin(Op::Cat(1), joined, last)
}

/// A splice of as many rows as places were kept leaves the prompt as long as it
/// was.
pub proof fn law_splice_keeps_length(embedded: Val, image: Val, n_image: usize)
    requires
        n_image < embedded.shape.d1,
        image.shape.rank == 2,
        image.shape.d0 == n_image,
    ensures
        spliced(embedded, image, n_image).shape == embedded.shape,
{
    reveal(un);
    reveal(bin);
}

/// The rows of a splice, in every reading of rows: the first row of the prompt, the rows
/// of the image in the places kept for them, and the rest of the prompt where it was.
pub proof fn law_splice_puts_rows_in_their_places<E>(
    r: Rows<E>,
    embedded: Val,
    image: Val,
    n_image: usize,
    j: int,
)
    requires
        r.joins() && r.cuts() && r.casts(),
        embedded.shape.rank == 3,
        image.shape.rank == 2,
        image.shape.d0 == n_image,
        n_image < embedded.shape.d1,
        0 <= j < embedded.shape.d1,
    ensures
        (r.row)(spliced(embedded, image, n_image), j) == (if 1 <= j <= n_image {
            (r.cast)(embedded.dtype, (r.row)(un(Op::Unsqueeze(0), image), j - 1))
        } else {
            (r.row)(embedded, j)
        }),
{
    let rest = (embedded.shape.d1 - 1 - n_image) as usize;
    let start = (1 + n_image) as usize;
    let first = un(Op::Narrow { dim: 1, start: 0, len: 1 }, embedded);
    let middle = un(Op::ToDType(embedded.dtype), un(Op::Unsqueeze(0), image));
    let last = un(Op::Narrow { dim: 1, start, len: rest }, embedded);
    let front = bin(Op::Cat(1), first, middle);
    assert(first.shape.rank == 3 && first.shape.d1 == 1 && middle.shape.rank == 3
        && middle.shape.d1 == n_image && last.shape.rank == 3) by {
        reveal(un);
    }
    assert(front.shape.rank == 3 && front.shape.d1 == 1 + n_image) by {
        reveal(bin);
    }
    let all = bin(Op::Cat(1), front, last);
    if j == 0 {
        assert((r.row)(all, j) == (r.row)(front, j));
        assert((r.row)(front, j) == (r.row)(first, j));
        assert((r.row)(first, j) == (r.row)(embedded, 0 + j));
    } else if j <= n_image {
        assert((r.row)(all, j) == (r.row)(front, j));
        assert((r.row)(front, j) == (r.row)(middle, j - 1));
        assert((r.row)(middle, j - 1) == (r.cast)(
            embedded.dtype,
            (r.row)(un(Op::Unsqueeze(0), image), j - 1),
        ));
    } else {
        assert((r.row)(all, j) == (r.row)(last, j - (1 + n_image)));
        assert((r.row)(last, j - start) == (r.row)(embedded, start + (j - start)));
    }
}

/// First place that the search for repetitions looks at.
pub open spec fn search_start(n: int) -> int {
    if n >= NGRAM_WINDOW {
        n - NGRAM_WINDOW
    } else {
        0
    }
}

/// The tokens at `idx` are those at the end.
pub open spec fn repeats(generated: Seq<u32>, idx: int) -> bool {
    forall|k: int|
        0 <= k < NGRAM_SIZE - 1 ==> #[trigger] generated[idx + k] == generated[generated.len()
            + 1 - NGRAM_SIZE + k]
}

/// What followed each repetition in the places up to `end`.
pub open spec fn followers(generated: Seq<u32>, start: int, end: int) -> Seq<u32>
    decreases end - start,
{
    if end <= start {
        Seq::empty()
    } else {
        let before = followers(generated, start, end - 1);
        if repeats(generated, end - 1) {
            before.push(generated[end - 1 + NGRAM_SIZE - 1])
        } else {
            before
        }
    }
}

/// Tokens that would complete a run that has been read before.
pub open spec fn banned(generated: Seq<u32>) -> Seq<u32> {
    let n = generated.len() as int;
    if n < NGRAM_SIZE {
        Seq::empty()
    } else {
        followers(generated, search_start(n), n + 1 - NGRAM_SIZE)
    }
}

fn is_repeat(generated: &Vec<u32>, idx: usize) -> (r: bool)
    requires
        generated.len() >= NGRAM_SIZE,
        idx + NGRAM_SIZE <= generated.len(),
    ensures
        r == repeats(generated@, idx as int),
{
    let end: usize = generated.len() - (NGRAM_SIZE - 1);
    let mut k: usize = 0;
    while k < NGRAM_SIZE - 1
        invariant
            k <= NGRAM_SIZE - 1,
            generated.len() >= NGRAM_SIZE,
            idx + NGRAM_SIZE <= generated.len(),
            end == generated.len() + 1 - NGRAM_SIZE,
            forall|j: int| 0 <= j < k ==> #[trigger] generated[idx + j] == generated[end + j],
        decreases NGRAM_SIZE - 1 - k,
    {
        if generated[idx + k] != generated[end + k] {
            assert(generated@[idx as int + k as int] != generated@[end as int + k as int]);
            return false;
        }
        k += 1;
    }
    assert(repeats(generated@, idx as int));
    true
}

/// Tokens that would complete a run that was read before within the window.
pub fn banned_tokens(generated: &Vec<u32>) -> (r: Vec<u32>)
    requires
        generated.len() < usize::MAX,
    ensures
        r@ == banned(generated@),
{
    let mut r: Vec<u32> = Vec::new();
    let n: usize = generated.len();
    if n < NGRAM_SIZE {
        return r;
    }
    let start: usize = n.saturating_sub(NGRAM_WINDOW);
    let end: usize = n + 1 - NGRAM_SIZE;
    let mut idx: usize = start;
    while idx < end
        invariant
            n == generated.len(),
            n >= NGRAM_SIZE,
            start == search_start(n as int),
            end == n + 1 - NGRAM_SIZE,
            start <= idx <= end,
            r@ == followers(generated@, start as int, idx as int),
        decreases end - idx,
    {
        if is_repeat(generated, idx) {
            r.push(generated[idx + NGRAM_SIZE - 1]);
        }
        idx += 1;
    }
    r
}

/// A token is banned exactly where reading it would end the text with a run that
/// begins within the window and has been read before.
pub proof fn law_banned_completes_a_run(generated: Seq<u32>, token: u32)
    requires
        generated.len() >= NGRAM_SIZE,
    ensures
        banned(generated).contains(token) <==> exists|idx: int|
            search_start(generated.len() as int) <= idx < generated.len() + 1 - NGRAM_SIZE
                && #[trigger] runs_alike(generated.push(token), idx),
{
    let n = generated.len() as int;
    let (start, end) = (search_start(n), n + 1 - NGRAM_SIZE);
    lemma_followers(generated, start, end, token);
    if banned(generated).contains(token) {
        let idx = choose|idx: int|
            start <= idx < end && #[trigger] repeats(generated, idx) && generated[idx + NGRAM_SIZE
                - 1] == token;
        lemma_alike(generated, token, idx);
        assert(runs_alike(generated.push(token), idx));
    }
    if exists|idx: int| start <= idx < end && #[trigger] runs_alike(generated.push(token), idx) {
        let idx = choose|idx: int|
            start <= idx < end && #[trigger] runs_alike(generated.push(token), idx);
        lemma_alike(generated, token, idx);
        assert(repeats(generated, idx));
    }
}

/// The run at `idx` is the one that the text ends with.
pub open spec fn runs_alike(text: Seq<u32>, idx: int) -> bool {
    text.subrange(idx, idx + NGRAM_SIZE) == text.subrange(
        text.len() - NGRAM_SIZE,
        text.len() as int,
    )
}

proof fn lemma_alike(generated: Seq<u32>, token: u32, idx: int)
    requires
        generated.len() >= NGRAM_SIZE,
        0 <= idx < generated.len() + 1 - NGRAM_SIZE,
    ensures
        runs_alike(generated.push(token), idx) <==> repeats(generated, idx) && generated[idx
            + NGRAM_SIZE - 1] == token,
{
    let text = generated.push(token);
    let n = NGRAM_SIZE as int;
    let a = text.subrange(idx, idx + n);
    let b = text.subrange(text.len() - n, text.len() as int);
    let end = generated.len() + 1 - n;
    if runs_alike(text, idx) {
        assert forall|k: int| 0 <= k < n - 1 implies #[trigger] generated[idx + k]
            == generated[end + k] by {
            assert(a[k] == b[k]);
        }
        assert(a[n - 1] == b[n - 1]);
        assert(repeats(generated, idx));
    }
    if repeats(generated, idx) && generated[idx + n - 1] == token {
        assert forall|k: int| 0 <= k < n implies a[k] == b[k] by {
            if k < n - 1 {
                assert(generated[idx + k] == generated[end + k]);
            }
        }
        assert(a =~= b);
    }
}

proof fn lemma_followers(generated: Seq<u32>, start: int, end: int, token: u32)
    requires
        0 <= start,
    ensures
        followers(generated, start, end).contains(token) <==> exists|idx: int|
            start <= idx < end && #[trigger] repeats(generated, idx) && generated[idx + NGRAM_SIZE
                - 1] == token,
    decreases end - start,
{
    if end > start {
        lemma_followers(generated, start, end - 1, token);
        let before = followers(generated, start, end - 1);
        let here = generated[end - 1 + NGRAM_SIZE - 1];
        if repeats(generated, end - 1) {
            let after = before.push(here);
            assert(after.contains(token) <==> before.contains(token) || token == here) by {
                if before.contains(token) {
                    let i = choose|i: int| 0 <= i < before.len() && before[i] == token;
                    assert(after[i] == token);
                }
                assert(after[before.len() as int] == here);
            }
        }
    }
}

/// One score is larger than another; what is not a number is larger than
/// nothing and smaller than nothing.
pub open spec fn larger(a: u32, b: u32) -> bool {
    !is_nan(a) && !is_nan(b) && magnitude(a) > magnitude(b)
}

fn is_larger(a: u32, b: u32) -> (r: bool)
    ensures
        r == larger(a, b),
{
    let (ma, mb) = (a % 0x8000_0000, b % 0x8000_0000);
    if ma > 0x7f80_0000 || mb > 0x7f80_0000 {
        return false;
    }
    if a < 0x8000_0000 {
        if b < 0x8000_0000 {
            a > b
        } else {
            a > 0 || b > 0x8000_0000
        }
    } else {
        b >= 0x8000_0000 && a < b
    }
}

/// Place of the first of the largest of the first `n` scores.
pub open spec fn best_of(values: Seq<u32>, n: int) -> int
    decreases n,
{
    if n <= 1 {
        0
    } else {
        let b = best_of(values, n - 1);
        if larger(values[n - 1], values[b]) {
            n - 1
        } else {
            b
        }
    }
}

/// Scores with those of the tokens in `banned` at minus infinity.
pub open spec fn without(values: Seq<u32>, banned: Seq<u32>) -> Seq<u32> {
    Seq::new(
        values.len(),
        |i: int|
            if banned.contains(i as u32) {
                NEG_INFINITY
            } else {
                values[i]
            },
    )
}

/// The best token is larger than each before it that is a number and not
/// smaller than any: where the first score is a number, no score is larger than
/// the one chosen, and none before it is as large.
pub proof fn law_best_is_first_largest(values: Seq<u32>, n: int, i: int)
    requires
        0 < n <= values.len(),
        !is_nan(values[0]),
        0 <= i < n,
    ensures
        0 <= best_of(values, n) < n,
        !is_nan(values[best_of(values, n)]),
        !larger(values[i], values[best_of(values, n)]),
        i < best_of(values, n) && !is_nan(values[i]) ==> larger(
            values[best_of(values, n)],
            values[i],
        ),
    decreases n,
{
    if n > 1 {
        law_best_is_first_largest(values, n - 1, if i < n - 1 { i } else { 0 });
    }
}

/// What comes after the scores of a pass.
#[derive(Clone, Copy, PartialEq, Eq, Structural, Debug)]
pub enum Turn {
    /// The page has ended.
    Stop,
    /// The token is added to the text, and read at the position.
    Feed { token: u32, pos: usize },
}

/// The text of a page while it is being read.
#[derive(Debug)]
pub struct Reading {
    /// Length of the prompt.
    pub seq: usize,
    pub max_length: usize,
    pub generated: Vec<u32>,
}

impl Reading {
    /// Every token of the text is one of `vocab`, and the text is not longer
    /// than allowed.
    pub open spec fn wf(self, vocab: int) -> bool {
        &&& forall|i: int| 0 <= i < self.generated.len() ==> #[trigger] self.generated[i] < vocab
        &&& self.generated.len() <= self.max_length
        &&& self.seq + self.max_length <= usize::MAX
    }

    pub fn new(seq: usize, max_length: usize) -> (r: Reading)
        requires
            seq + max_length <= usize::MAX,
        ensures
            r.seq == seq,
            r.max_length == max_length,
            r.generated@ == Seq::<u32>::empty(),
            forall|vocab: int| r.wf(vocab),
    {
        Reading { seq, max_length, generated: Vec::new() }
    }

    /// The text may still grow.
    pub fn wants_more(&self) -> (r: bool)
        ensures
            r == (self.generated.len() < self.max_length),
    {
        self.generated.len() < self.max_length
    }

    /// The token that the scores choose.
    pub open spec fn choice(self, values: Seq<u32>) -> u32 {
        best_of(without(values, banned(self.generated@)), values.len() as int) as u32
    }

    /// Takes in the scores of a pass, one per token.
    pub fn turn(&mut self, values: &Vec<u32>) -> (r: Turn)
        requires
            old(self).wf(values.len() as int),
            old(self).generated.len() < old(self).max_length,
            0 < values.len() <= u32::MAX,
        ensures
            final(self).wf(values.len() as int),
            final(self).seq == old(self).seq,
            final(self).max_length == old(self).max_length,
            ({
                let token = old(self).choice(values@);
                if token == EOS {
                    r == Turn::Stop && final(self).generated@ == old(self).generated@
                } else {
                    &&& r == (Turn::Feed {
                        token,
                        pos: (old(self).seq + old(self).generated.len()) as usize,
                    })
                    &&& final(self).generated@ == old(self).generated@.push(token)
                }
            }),
    {
        let ghost vocab = values.len() as int;
        let bans = banned_tokens(&self.generated);
        let mut scores: Vec<u32> = Vec::new();
        let mut i: usize = 0;
        while i < values.len()
            invariant
                i <= values.len(),
                scores@ == values@.take(i as int),
            decreases values.len() - i,
        {
            scores.push(values[i]);
            assert(scores@ =~= values@.take(i + 1));
            i += 1;
        }
        assert(scores@ =~= values@);
        proof {
            lemma_bans_are_tokens(
                self.generated@,
                search_start(self.generated.len() as int),
                self.generated.len() + 1 - NGRAM_SIZE,
                vocab,
            );
        }
        let mut j: usize = 0;
        while j < bans.len()
            invariant
                j <= bans.len(),
                vocab == values.len(),
                vocab <= u32::MAX,
                scores.len() == vocab,
                forall|k: int| 0 <= k < bans.len() ==> #[trigger] bans[k] < vocab,
                forall|i: int|
                    0 <= i < vocab ==> #[trigger] scores[i] == (if bans@.take(j as int).contains(
                        i as u32,
                    ) {
                        NEG_INFINITY
                    } else {
                        values[i]
                    }),
            decreases bans.len() - j,
        {
            let token: u32 = bans[j];
            let ghost before = scores@;
            scores.set(token as usize, NEG_INFINITY);
            proof {
                let old_bans = bans@.take(j as int);
                let new_bans = bans@.take(j + 1);
                assert(new_bans =~= old_bans.push(token));
                assert forall|i: int| 0 <= i < vocab implies #[trigger] scores[i] == (
                if new_bans.contains(i as u32) {
                    NEG_INFINITY
                } else {
                    values[i]
                }) by {
                    assert(before[i] == (if old_bans.contains(i as u32) {
                        NEG_INFINITY
                    } else {
                        values[i]
                    }));
                    if old_bans.contains(i as u32) {
                        let k = choose|k: int| 0 <= k < old_bans.len() && old_bans[k] == i as u32;
                        assert(new_bans[k] == i as u32);
                    }
                    assert(new_bans[j as int] == token);
                }
            }
            j += 1;
        }
        assert(bans@.take(bans.len() as int) =~= bans@);
        assert(scores@ =~= without(values@, banned(self.generated@)));
        let mut best: usize = 0;
        let mut k: usize = 1;
        while k < scores.len()
            invariant
                1 <= k <= scores.len(),
                best < k,
                best == best_of(scores@, k as int),
            decreases scores.len() - k,
        {
            if is_larger(scores[k], scores[best]) {
                best = k;
            }
            k += 1;
        }
        let token: u32 = best as u32;
        if token == EOS {
            return Turn::Stop;
        }
        let pos: usize = self.seq + self.generated.len();
        self.generated.push(token);
        Turn::Feed { token, pos }
    }
}

/// The chosen token is the best of those that do not repeat a run: where a token that is
/// not banned has a score above minus infinity, the choice is not banned, and no token
/// that is not banned has a larger score.
pub proof fn law_choice_is_the_best_that_repeats_nothing(r: Reading, values: Seq<u32>, i: int)
    requires
        0 < values.len() <= u32::MAX,
        forall|k: int| 0 <= k < values.len() ==> !is_nan(#[trigger] values[k]),
        0 <= i < values.len(),
        !banned(r.generated@).contains(i as u32),
        larger(values[i], 0xff80_0000),
    ensures
        r.choice(values) < values.len(),
        !banned(r.generated@).contains(r.choice(values)),
        !larger(values[i], values[r.choice(values) as int]),
{
    let bans = banned(r.generated@);
    let left = without(values, bans);
    let n = values.len() as int;
    assert(!is_nan(left[0]));
    law_best_is_first_largest(left, n, i);
    let c = best_of(left, n);
    assert(left[i] == values[i]);
    assert(r.choice(values) == c);
    if bans.contains(c as u32) {
        assert(left[c] == 0xff80_0000u32);
    }
}

/// Only tokens of the text are ever banned.
proof fn lemma_bans_are_tokens(generated: Seq<u32>, start: int, end: int, vocab: int)
    requires
        0 <= start,
        end <= generated.len() + 1 - NGRAM_SIZE,
        forall|i: int| 0 <= i < generated.len() ==> #[trigger] generated[i] < vocab,
    ensures
        forall|k: int|
            0 <= k < followers(generated, start, end).len() ==> #[trigger] followers(
                generated,
                start,
                end,
            )[k] < vocab,
    decreases end - start,
{
    if end > start {
        lemma_bans_are_tokens(generated, start, end - 1, vocab);
        assert(generated[end - 1 + NGRAM_SIZE - 1] < vocab);
        let (before, after) = (
            followers(generated, start, end - 1),
            followers(generated, start, end),
        );
        assert forall|k: int| 0 <= k < after.len() implies #[trigger] after[k] < vocab by {
            if k < before.len() {
                assert(before[k] < vocab);
            }
        }
    }
}

} // verus!
