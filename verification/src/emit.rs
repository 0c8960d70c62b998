//! The trace emitter: renders one probe block per (target, symbol) pair in a
//! chosen dialect and joins the blocks with single blank-line separators.

use vstd::prelude::*;
use vstd::string::StringExecFns;

use crate::symbols::{TraceTarget, TraceTargetView, trace_views};
use crate::text::str_eq;

verus! {

/// The two probe-script dialects.
#[derive(Clone, Copy, Debug, PartialEq, Eq, Structural)]
pub enum TraceType {
    EBpf,
    STap,
}

impl TraceType {
    /// The dialect a command word names: `ebpf` or `stap`, nothing else.
    pub fn parse(s: &str) -> (r: Option<TraceType>)
        ensures
            s@ == "ebpf"@ ==> r == Some(TraceType::EBpf),
            s@ == "stap"@ ==> r == Some(TraceType::STap),
            s@ != "ebpf"@ && s@ != "stap"@ ==> r is None,
    {
        proof {
            reveal_strlit("ebpf");
            reveal_strlit("stap");
            assert("ebpf"@[0] != "stap"@[0]);
        }
        if str_eq(s, "ebpf") {
            Some(TraceType::EBpf)
        } else if str_eq(s, "stap") {
            Some(TraceType::STap)
        } else {
            None
        }
    }
}

/// One probe block of the `ebpf` dialect, with the target path and the
/// symbol name in their two slots.
pub open spec fn ebpf_block(path: Seq<char>, sym: Seq<char>) -> Seq<char> {
    "uprobe:"@ + path + ":"@ + sym
        + " {\n    if (pid > 0) {\n        printf(\"probe: %s\\n%s\\n\", probe, ustack(perf));\n    }\n}"@
}

/// One probe block of the `stap` dialect.
pub open spec fn stap_block(path: Seq<char>, sym: Seq<char>) -> Seq<char> {
    "probe process(\""@ + path + "\").function(\""@ + sym
        + "\").call {\n    printf(\"probe: %s\", ppfunc());\n    print_usyms(ucallers(-1));\n}"@
}

/// The chosen dialect's block.
pub open spec fn probe_block(t: TraceType, path: Seq<char>, sym: Seq<char>) -> Seq<char> {
    match t {
        TraceType::EBpf => ebpf_block(path, sym),
        TraceType::STap => stap_block(path, sym),
    }
}

/// One block per symbol of a target, in symbol order.
pub open spec fn target_blocks(
    t: TraceType,
    path: Seq<char>,
    syms: Seq<Seq<char>>,
) -> Seq<Seq<char>> {
    syms.map_values(|s: Seq<char>| probe_block(t, path, s))
}

/// All blocks of the document: across the targets in input order, then
/// across each target's symbols in their order.
pub open spec fn doc_blocks(t: TraceType, tt: Seq<TraceTargetView>) -> Seq<Seq<char>>
    decreases tt.len(),
{
    if tt.len() == 0 {
        Seq::empty()
    } else {
        doc_blocks(t, tt.drop_last()) + target_blocks(
            t,
            tt.last().abs_path,
            tt.last().symbols,
        )
    }
}

/// Blocks joined with a single blank line between consecutive blocks and no
/// leading or trailing separator.
pub open spec fn joined(blocks: Seq<Seq<char>>) -> Seq<char>
    decreases blocks.len(),
{
    if blocks.len() == 0 {
        Seq::empty()
    } else if blocks.len() == 1 {
        blocks[0]
    } else {
        joined(blocks.drop_last()) + "\n\n"@ + blocks.last()
    }
}

/// The whole rendered document of a dialect.
pub open spec fn rendered(t: TraceType, tt: Seq<TraceTargetView>) -> Seq<char> {
    joined(doc_blocks(t, tt))
}

/// Appends one probe block of the chosen dialect.
fn push_block(doc: &mut String, t: TraceType, path: &str, sym: &str)
    ensures
        final(doc)@ == old(doc)@ + probe_block(t, path@, sym@),
{
    let ghost before = doc@;
    match t {
        TraceType::EBpf => {
            doc.append("uprobe:");
            doc.append(path);
            doc.append(":");
            doc.append(sym);
            doc.append(
                " {\n    if (pid > 0) {\n        printf(\"probe: %s\\n%s\\n\", probe, ustack(perf));\n    }\n}",
            );
            proof {
                assert(doc@ =~= before + ebpf_block(path@, sym@));
            }
        },
        TraceType::STap => {
            doc.append("probe process(\"");
            doc.append(path);
            doc.append("\").function(\"");
            doc.append(sym);
            doc.append(
                "\").call {\n    printf(\"probe: %s\", ppfunc());\n    print_usyms(ucallers(-1));\n}",
            );
            proof {
                assert(doc@ =~= before + stap_block(path@, sym@));
            }
        },
    }
}

/// Joining one more block appends a blank-line separator exactly when some
/// block came before.
proof fn lemma_joined_push(blocks: Seq<Seq<char>>, b: Seq<char>)
    ensures
        blocks.len() == 0 ==> joined(blocks.push(b)) == b,
        blocks.len() > 0 ==> joined(blocks.push(b)) == joined(blocks) + "\n\n"@ + b,
{
    assert(blocks.push(b).drop_last() =~= blocks);
    assert(blocks.push(b).last() == b);
    if blocks.len() == 0 {
        assert(joined(blocks.push(b)) == blocks.push(b)[0]);
    }
}

/// Renders the document of dialect `t` for the given triples.
#[verifier::loop_isolation(false)]
fn render(t: TraceType, target: &Vec<TraceTarget>) -> (r: String)
    ensures
        r@ == rendered(t, trace_views(target@)),
{
    let ghost tv = trace_views(target@);
    let mut doc = String::new();
    let mut first = true;
    let mut i: usize = 0;
    while i < target.len()
        invariant
            i <= tv.len(),
            doc@ == joined(doc_blocks(t, tv.subrange(0, i as int))),
            first == (doc_blocks(t, tv.subrange(0, i as int)).len() == 0),
        decreases tv.len() - i,
    {
        let ghost done = doc_blocks(t, tv.subrange(0, i as int));
        let entry: &TraceTarget = &target[i];
        proof {
            assert(entry@ == tv[i as int]);
        }
        let mut j: usize = 0;
        while j < entry.symbols.len()
            invariant
                j <= entry@.symbols.len(),
                doc@ == joined(
                    done + target_blocks(t, entry@.abs_path, entry@.symbols.subrange(
                        0,
                        j as int,
                    )),
                ),
                first == ((done + target_blocks(t, entry@.abs_path, entry@.symbols.subrange(
                    0,
                    j as int,
                ))).len() == 0),
            decreases entry@.symbols.len() - j,
        {
            let ghost blocks = done + target_blocks(t, entry@.abs_path, entry@.symbols.subrange(
                0,
                j as int,
            ));
            if !first {
                doc.append("\n\n");
            }
            push_block(&mut doc, t, entry.abs_path.as_str(), entry.symbols[j].as_str());
            first = false;
            proof {
                let b = probe_block(t, entry@.abs_path, entry@.symbols[j as int]);
                lemma_joined_push(blocks, b);
                assert(doc@ =~= joined(blocks.push(b)));
                assert(target_blocks(t, entry@.abs_path, entry@.symbols.subrange(0, j + 1))
                    =~= target_blocks(t, entry@.abs_path, entry@.symbols.subrange(
                    0,
                    j as int,
                )).push(b));
                assert(done + target_blocks(t, entry@.abs_path, entry@.symbols.subrange(
                    0,
                    j + 1,
                )) =~= blocks.push(b));
            }
            j += 1;
        }
        proof {
            assert(entry@.symbols.subrange(0, entry@.symbols.len() as int)
                =~= entry@.symbols);
            assert(tv.subrange(0, i + 1).drop_last() =~= tv.subrange(0, i as int));
            assert(tv.subrange(0, i + 1).last() == tv[i as int]);
            assert(doc_blocks(t, tv.subrange(0, i + 1)) == done + target_blocks(
                t,
                entry@.abs_path,
                entry@.symbols,
            ));
        }
        i += 1;
    }
    proof {
        assert(tv.subrange(0, tv.len() as int) =~= tv);
    }
    doc
}

/// Renders the `ebpf` dialect: one `uprobe` block per (target, symbol) pair,
/// in input order, consecutive blocks separated by one blank line.
pub fn generate_ebpf(target: &Vec<TraceTarget>) -> (r: String)
    ensures
        r@ == rendered(TraceType::EBpf, trace_views(target@)),
{
    render(TraceType::EBpf, target)
}

/// Renders the `stap` dialect in the same arrangement.
pub fn generate_stap(target: &Vec<TraceTarget>) -> (r: String)
    ensures
        r@ == rendered(TraceType::STap, trace_views(target@)),
{
    render(TraceType::STap, target)
}

} // verus!
