//! The discovery projection: a digest of the roots and options that decide what discovery can
//! see, so that listings made under other ones are not reused.

use vstd::bytes::{
    lemma_auto_spec_u64_to_from_le_bytes, spec_u64_from_le_bytes, spec_u64_to_le_bytes,
    u64_to_le_bytes,
};
use vstd::prelude::*;
use vstd::utf8::encode_utf8;
use crate::outside::{sha256, sha256_of};
use crate::path::FilePath;

verus! {

/// What decides which transcripts are discovered and how.
pub struct IngestOptions {
    pub claude_sources: Vec<FilePath>,
    pub include_agents: bool,
    pub include_reasoning: bool,
    pub include_codex: bool,
    pub include_opencode: bool,
    pub include_cursor: bool,
    pub include_pi: bool,
    pub include_omp: bool,
    pub include_openclaw: bool,
    pub include_copilot: bool,
    pub include_grok: bool,
    pub include_jcode: bool,
    pub include_muse: bool,
    pub include_antigravity: bool,
    pub embeddings: bool,
    /// The exclude patterns, expanded.
    pub exclude_patterns: Vec<String>,
}

/// The roots of the other sources that are walked with the inventory.
pub struct DiscoveryRoots {
    pub codex: Vec<FilePath>,
    pub pi: Vec<FilePath>,
    pub omp: Vec<FilePath>,
}

/// The prefix of every projection.
pub open spec fn projection_prefix() -> Seq<u8> {
    encode_utf8("memex-directory-discovery-v1"@)
}

/// A byte string behind its length.
pub open spec fn framed(bytes: Seq<u8>) -> Seq<u8> {
    spec_u64_to_le_bytes(bytes.len() as u64) + bytes
}

/// Byte strings one behind the other, each behind its length.
pub open spec fn framed_all(items: Seq<Seq<u8>>) -> Seq<u8>
    decreases items.len(),
{
    if items.len() == 0 {
        Seq::empty()
    } else {
        framed(items[0]) + framed_all(items.drop_first())
    }
}

/// A list of byte strings behind its length.
pub open spec fn framed_list(items: Seq<Seq<u8>>) -> Seq<u8> {
    spec_u64_to_le_bytes(items.len() as u64) + framed_all(items)
}

/// The spellings of paths.
pub open spec fn spellings(paths: Seq<FilePath>) -> Seq<Seq<u8>> {
    Seq::new(paths.len(), |i: int| paths[i].spelling())
}

/// One byte for each option.
pub open spec fn flag_bytes(flags: Seq<bool>) -> Seq<u8> {
    Seq::new(
        flags.len(),
        |i: int|
            if flags[i] {
                1u8
            } else {
                0u8
            },
    )
}

/// What a projection depends on.
#[verifier::ext_equal]
pub struct ProjectionModel {
    pub flags: Seq<bool>,
    pub claude: Seq<Seq<u8>>,
    pub codex: Seq<Seq<u8>>,
    pub pi: Seq<Seq<u8>>,
    pub omp: Seq<Seq<u8>>,
    pub patterns: Seq<Seq<u8>>,
}

/// The bytes whose digest is the projection.
pub open spec fn projection_bytes(model: ProjectionModel) -> Seq<u8> {
    projection_prefix() + flag_bytes(model.flags) + framed_list(model.claude) + framed_list(
        model.codex,
    ) + framed_list(model.pi) + framed_list(model.omp) + framed_all(model.patterns)
}

/// The options that decide what is discovered, in their order.
pub open spec fn option_flags(options: IngestOptions) -> Seq<bool> {
    seq![
        options.include_agents,
        options.include_reasoning,
        options.include_codex,
        options.include_opencode,
        options.include_cursor,
        options.include_pi,
        options.include_omp,
        options.include_openclaw,
        options.include_copilot,
        options.include_grok,
        options.include_jcode,
        options.include_muse,
        options.include_antigravity,
    ]
}

/// What the projection of these options and roots depends on. The roots of a source count only
/// where it is included.
pub open spec fn projection_model(
    options: IngestOptions,
    roots: DiscoveryRoots,
) -> ProjectionModel {
    ProjectionModel {
        flags: option_flags(options),
        claude: spellings(options.claude_sources@),
        codex: if options.include_codex {
            spellings(roots.codex@)
        } else {
            Seq::empty()
        },
        pi: if options.include_pi {
            spellings(roots.pi@)
        } else {
            Seq::empty()
        },
        omp: if options.include_omp {
            spellings(roots.omp@)
        } else {
            Seq::empty()
        },
        patterns: Seq::new(
            options.exclude_patterns@.len(),
            |i: int| encode_utf8(options.exclude_patterns@[i]@),
        ),
    }
}

fn push_framed(bytes: &mut Vec<u8>, item: &[u8])
    ensures
        final(bytes)@ == old(bytes)@ + framed(item@),
{
    let mut length = u64_to_le_bytes(item.len() as u64);
    bytes.append(&mut length);
    bytes.extend_from_slice(item);
    assert(bytes@ =~= old(bytes)@ + framed(item@));
}

fn push_paths(bytes: &mut Vec<u8>, paths: &Vec<FilePath>)
    ensures
        final(bytes)@ == old(bytes)@ + framed_list(spellings(paths@)),
{
    let ghost items = spellings(paths@);
    let ghost before = bytes@;
    let mut length = u64_to_le_bytes(paths.len() as u64);
    bytes.append(&mut length);
    let ghost start = bytes@;
    let mut i: usize = 0;
    assert(items.skip(0) =~= items);
    while i < paths.len()
        invariant
            i <= paths@.len(),
            items == spellings(paths@),
            bytes@ + framed_all(items.skip(i as int)) == start + framed_all(items),
        decreases paths@.len() - i,
    {
        let ghost shorter = bytes@;
        push_framed(bytes, paths[i].bytes().as_slice());
        proof {
            let rest = items.skip(i as int);
            assert(rest[0] == items[i as int]);
            assert(rest.drop_first() =~= items.skip(i + 1));
            assert(bytes@ + framed_all(items.skip(i + 1)) =~= shorter + framed_all(rest));
        }
        i += 1;
    }
    assert(items.skip(i as int) =~= Seq::empty());
    assert(bytes@ =~= before + framed_list(items));
}

fn push_flag(bytes: &mut Vec<u8>, flag: bool)
    ensures
        final(bytes)@ == old(bytes)@.push(
            if flag {
                1u8
            } else {
                0u8
            },
        ),
{
    if flag {
        bytes.push(1);
    } else {
        bytes.push(0);
    }
}

fn push_flags(bytes: &mut Vec<u8>, options: &IngestOptions)
    ensures
        final(bytes)@ == old(bytes)@ + flag_bytes(option_flags(*options)),
{
    let ghost before = bytes@;
    let flags: Vec<bool> = vec![
        options.include_agents,
        options.include_reasoning,
        options.include_codex,
        options.include_opencode,
        options.include_cursor,
        options.include_pi,
        options.include_omp,
        options.include_openclaw,
        options.include_copilot,
        options.include_grok,
        options.include_jcode,
        options.include_muse,
        options.include_antigravity,
    ];
    assert(flags@ =~= option_flags(*options));
    let mut i: usize = 0;
    assert(bytes@ =~= before + flag_bytes(flags@.take(0)));
    while i < flags.len()
        invariant
            i <= flags@.len(),
            bytes@ == before + flag_bytes(flags@.take(i as int)),
        decreases flags@.len() - i,
    {
        push_flag(bytes, flags[i]);
        assert(bytes@ =~= before + flag_bytes(flags@.take(i + 1)));
        i += 1;
    }
    assert(flags@.take(i as int) =~= flags@);
}

/// The bytes whose digest is the projection of these options and roots.
pub fn projection_input(options: &IngestOptions, roots: &DiscoveryRoots) -> (bytes: Vec<u8>)
    ensures
        bytes@ == projection_bytes(projection_model(*options, *roots)),
{
    let ghost model = projection_model(*options, *roots);
    let none: Vec<FilePath> = Vec::new();
    assert(spellings(none@) =~= Seq::empty());
    let mut bytes: Vec<u8> = Vec::new();
    bytes.extend_from_slice("memex-directory-discovery-v1".as_bytes());
    assert(bytes@ =~= projection_prefix());
    push_flags(&mut bytes, options);
    push_paths(&mut bytes, &options.claude_sources);
    push_paths(
        &mut bytes,
        if options.include_codex {
            &roots.codex
        } else {
            &none
        },
    );
    push_paths(
        &mut bytes,
        if options.include_pi {
            &roots.pi
        } else {
            &none
        },
    );
    push_paths(
        &mut bytes,
        if options.include_omp {
            &roots.omp
        } else {
            &none
        },
    );
    let ghost start = bytes@;
    let ghost patterns = model.patterns;
    let mut i: usize = 0;
    assert(patterns.skip(0) =~= patterns);
    while i < options.exclude_patterns.len()
        invariant
            i <= options.exclude_patterns@.len(),
            patterns.len() == options.exclude_patterns@.len(),
            forall|k: int|
                0 <= k < patterns.len() ==> #[trigger] patterns[k] == encode_utf8(
                    options.exclude_patterns@[k]@,
                ),
            bytes@ + framed_all(patterns.skip(i as int)) == start + framed_all(patterns),
        decreases options.exclude_patterns@.len() - i,
    {
        let ghost shorter = bytes@;
        push_framed(&mut bytes, options.exclude_patterns[i].as_str().as_bytes());
        proof {
            let rest = patterns.skip(i as int);
            assert(rest[0] == patterns[i as int]);
            assert(rest.drop_first() =~= patterns.skip(i + 1));
            assert(bytes@ + framed_all(patterns.skip(i + 1)) =~= shorter + framed_all(rest));
        }
        i += 1;
    }
    assert(patterns.skip(i as int) =~= Seq::empty());
    assert(bytes@ =~= start + framed_all(patterns));
    bytes
}

/// The projection of these options and roots.
pub fn directory_projection(options: &IngestOptions, roots: &DiscoveryRoots) -> (projection: Vec<
    u8,
>)
    ensures
        projection@ == sha256_of(projection_bytes(projection_model(*options, *roots))),
        projection@.len() == 32,
{
    sha256(projection_input(options, roots).as_slice())
}

/// The lengths of the byte strings fit into machine integers.
pub open spec fn measurable(items: Seq<Seq<u8>>) -> bool {
    items.len() <= u64::MAX && forall|i: int|
        0 <= i < items.len() ==> (#[trigger] items[i]).len() <= u64::MAX
}

proof fn lemma_split(a: Seq<u8>, b: Seq<u8>, c: Seq<u8>, d: Seq<u8>)
    requires
        a + b == c + d,
        a.len() == c.len(),
    ensures
        a == c,
        b == d,
{
    assert(a =~= (a + b).take(a.len() as int));
    assert(c =~= (c + d).take(c.len() as int));
    assert(b =~= (a + b).skip(a.len() as int));
    assert(d =~= (c + d).skip(c.len() as int));
}

proof fn lemma_length_bytes(n: u64)
    ensures
        spec_u64_to_le_bytes(n).len() == 8,
        spec_u64_from_le_bytes(spec_u64_to_le_bytes(n)) == n,
{
    lemma_auto_spec_u64_to_from_le_bytes();
}

proof fn lemma_framed_split(a: Seq<u8>, b: Seq<u8>, c: Seq<u8>, d: Seq<u8>)
    requires
        framed(a) + b == framed(c) + d,
        a.len() <= u64::MAX,
        c.len() <= u64::MAX,
    ensures
        a == c,
        b == d,
{
    let la = spec_u64_to_le_bytes(a.len() as u64);
    let lc = spec_u64_to_le_bytes(c.len() as u64);
    lemma_length_bytes(a.len() as u64);
    lemma_length_bytes(c.len() as u64);
    assert(framed(a) + b =~= la + (a + b));
    assert(framed(c) + d =~= lc + (c + d));
    lemma_split(la, a + b, lc, c + d);
    lemma_split(a, b, c, d);
}

proof fn lemma_framed_all_split(
    left: Seq<Seq<u8>>,
    a: Seq<u8>,
    right: Seq<Seq<u8>>,
    b: Seq<u8>,
)
    requires
        framed_all(left) + a == framed_all(right) + b,
        left.len() == right.len(),
        measurable(left),
        measurable(right),
    ensures
        left == right,
        a == b,
    decreases left.len(),
{
    if left.len() > 0 {
        let left_rest = framed_all(left.drop_first());
        let right_rest = framed_all(right.drop_first());
        assert(framed_all(left) + a =~= framed(left[0]) + (left_rest + a));
        assert(framed_all(right) + b =~= framed(right[0]) + (right_rest + b));
        lemma_framed_split(left[0], left_rest + a, right[0], right_rest + b);
        lemma_framed_all_split(left.drop_first(), a, right.drop_first(), b);
        assert(left =~= seq![left[0]] + left.drop_first());
        assert(right =~= seq![right[0]] + right.drop_first());
    } else {
        assert(left =~= right);
        assert(framed_all(left) + a =~= a);
        assert(framed_all(right) + b =~= b);
    }
}

proof fn lemma_framed_list_split(
    left: Seq<Seq<u8>>,
    a: Seq<u8>,
    right: Seq<Seq<u8>>,
    b: Seq<u8>,
)
    requires
        framed_list(left) + a == framed_list(right) + b,
        measurable(left),
        measurable(right),
    ensures
        left == right,
        a == b,
{
    let la = spec_u64_to_le_bytes(left.len() as u64);
    let lb = spec_u64_to_le_bytes(right.len() as u64);
    lemma_length_bytes(left.len() as u64);
    lemma_length_bytes(right.len() as u64);
    assert(framed_list(left) + a =~= la + (framed_all(left) + a));
    assert(framed_list(right) + b =~= lb + (framed_all(right) + b));
    lemma_split(la, framed_all(left) + a, lb, framed_all(right) + b);
    lemma_framed_all_split(left, a, right, b);
}

proof fn lemma_framed_all_injective(left: Seq<Seq<u8>>, right: Seq<Seq<u8>>)
    requires
        framed_all(left) == framed_all(right),
        measurable(left),
        measurable(right),
    ensures
        left == right,
    decreases left.len(),
{
    if left.len() > 0 && right.len() > 0 {
        lemma_framed_split(
            left[0],
            framed_all(left.drop_first()),
            right[0],
            framed_all(right.drop_first()),
        );
        lemma_framed_all_injective(left.drop_first(), right.drop_first());
        assert(left =~= seq![left[0]] + left.drop_first());
        assert(right =~= seq![right[0]] + right.drop_first());
    } else {
        if left.len() > 0 {
            lemma_length_bytes(left[0].len() as u64);
            assert(framed_all(left).len() >= 8);
        }
        if right.len() > 0 {
            lemma_length_bytes(right[0].len() as u64);
            assert(framed_all(right).len() >= 8);
        }
        assert(left =~= right);
    }
}

proof fn lemma_flags_injective(left: Seq<bool>, right: Seq<bool>)
    requires
        flag_bytes(left) == flag_bytes(right),
    ensures
        left == right,
{
    assert(flag_bytes(left).len() == left.len());
    assert(flag_bytes(right).len() == right.len());
    assert forall|i: int| 0 <= i < left.len() implies left[i] == right[i] by {
        assert(flag_bytes(left)[i] == flag_bytes(right)[i]);
        assert(flag_bytes(left)[i] == (if left[i] {
            1u8
        } else {
            0u8
        }));
        assert(flag_bytes(right)[i] == (if right[i] {
            1u8
        } else {
            0u8
        }));
    }
    assert(left =~= right);
}

proof fn lemma_regrouped(
    p: Seq<u8>,
    f: Seq<u8>,
    a: Seq<u8>,
    b: Seq<u8>,
    c: Seq<u8>,
    d: Seq<u8>,
    e: Seq<u8>,
)
    ensures
        p + f + a + b + c + d + e == p + (f + (a + (b + (c + (d + e))))),
{
    assert(p + f + a + b + c + d + e =~= p + (f + (a + (b + (c + (d + e))))));
}

/// The lengths in a model fit into machine integers, as they do for values that exist.
pub open spec fn measurable_model(model: ProjectionModel) -> bool {
    &&& measurable(model.claude)
    &&& measurable(model.codex)
    &&& measurable(model.pi)
    &&& measurable(model.omp)
    &&& measurable(model.patterns)
}

proof fn lemma_bytes_identify_the_model(left: ProjectionModel, right: ProjectionModel)
    requires
        left.flags.len() == right.flags.len(),
        measurable_model(left),
        measurable_model(right),
        projection_bytes(left) == projection_bytes(right),
    ensures
        left == right,
{
    let prefix = projection_prefix();
    let e1 = framed_all(left.patterns);
    let e2 = framed_all(right.patterns);
    let d1 = framed_list(left.omp) + e1;
    let d2 = framed_list(right.omp) + e2;
    let c1 = framed_list(left.pi) + d1;
    let c2 = framed_list(right.pi) + d2;
    let b1 = framed_list(left.codex) + c1;
    let b2 = framed_list(right.codex) + c2;
    let a1 = framed_list(left.claude) + b1;
    let a2 = framed_list(right.claude) + b2;
    let f1 = flag_bytes(left.flags) + a1;
    let f2 = flag_bytes(right.flags) + a2;
    lemma_regrouped(
        prefix,
        flag_bytes(left.flags),
        framed_list(left.claude),
        framed_list(left.codex),
        framed_list(left.pi),
        framed_list(left.omp),
        e1,
    );
    lemma_regrouped(
        prefix,
        flag_bytes(right.flags),
        framed_list(right.claude),
        framed_list(right.codex),
        framed_list(right.pi),
        framed_list(right.omp),
        e2,
    );
    lemma_split(prefix, f1, prefix, f2);
    assert(flag_bytes(left.flags).len() == flag_bytes(right.flags).len());
    lemma_split(flag_bytes(left.flags), a1, flag_bytes(right.flags), a2);
    lemma_flags_injective(left.flags, right.flags);
    lemma_framed_list_split(left.claude, b1, right.claude, b2);
    lemma_framed_list_split(left.codex, c1, right.codex, c2);
    lemma_framed_list_split(left.pi, d1, right.pi, d2);
    lemma_framed_list_split(left.omp, e1, right.omp, e2);
    lemma_framed_all_injective(left.patterns, right.patterns);
}

/// The projection input identifies the options and the effective roots: where two inputs are
/// the same, every option that decides what is discovered is the same, and so are the exclude
/// patterns, the transcript roots, and the roots of every source that is included.
pub proof fn law_projection_identifies_options_and_roots(
    left: IngestOptions,
    left_roots: DiscoveryRoots,
    right: IngestOptions,
    right_roots: DiscoveryRoots,
)
    requires
        measurable_model(projection_model(left, left_roots)),
        measurable_model(projection_model(right, right_roots)),
        projection_bytes(projection_model(left, left_roots)) == projection_bytes(
            projection_model(right, right_roots),
        ),
    ensures
        left.include_agents == right.include_agents,
        left.include_reasoning == right.include_reasoning,
        left.include_codex == right.include_codex,
        left.include_opencode == right.include_opencode,
        left.include_cursor == right.include_cursor,
        left.include_pi == right.include_pi,
        left.include_omp == right.include_omp,
        left.include_openclaw == right.include_openclaw,
        left.include_copilot == right.include_copilot,
        left.include_grok == right.include_grok,
        left.include_jcode == right.include_jcode,
        left.include_muse == right.include_muse,
        left.include_antigravity == right.include_antigravity,
        spellings(left.claude_sources@) == spellings(right.claude_sources@),
        left.include_codex ==> spellings(left_roots.codex@) == spellings(right_roots.codex@),
        left.include_pi ==> spellings(left_roots.pi@) == spellings(right_roots.pi@),
        left.include_omp ==> spellings(left_roots.omp@) == spellings(right_roots.omp@),
        projection_model(left, left_roots).patterns == projection_model(
            right,
            right_roots,
        ).patterns,
{
    let one = projection_model(left, left_roots);
    let other = projection_model(right, right_roots);
    lemma_bytes_identify_the_model(one, other);
    assert forall|i: int| 0 <= i < 13 implies option_flags(left)[i] == option_flags(right)[i] by {
        assert(one.flags[i] == other.flags[i]);
    }
    assert(option_flags(left)[0] == option_flags(right)[0]);
    assert(option_flags(left)[1] == option_flags(right)[1]);
    assert(option_flags(left)[2] == option_flags(right)[2]);
    assert(option_flags(left)[3] == option_flags(right)[3]);
    assert(option_flags(left)[4] == option_flags(right)[4]);
    assert(option_flags(left)[5] == option_flags(right)[5]);
    assert(option_flags(left)[6] == option_flags(right)[6]);
    assert(option_flags(left)[7] == option_flags(right)[7]);
    assert(option_flags(left)[8] == option_flags(right)[8]);
    assert(option_flags(left)[9] == option_flags(right)[9]);
    assert(option_flags(left)[10] == option_flags(right)[10]);
    assert(option_flags(left)[11] == option_flags(right)[11]);
    assert(option_flags(left)[12] == option_flags(right)[12]);
}

} // verus!
