//! The tool set a client may be offered, and the usage guide handed to it.

use vstd::prelude::*;

verus! {

/// A search tool that can be offered to a client.
#[derive(Clone, Copy, PartialEq, Eq, Structural, Debug, Hash)]
pub enum ExposedTool {
    FindFiles,
    Grep,
    MultiGrep,
}

impl ExposedTool {
    pub open spec fn name_spec(self) -> Seq<char> {
        match self {
            ExposedTool::FindFiles => "find_files"@,
            ExposedTool::Grep => "grep"@,
            ExposedTool::MultiGrep => "multi_grep"@,
        }
    }

    /// The tool's name as clients see it.
    pub fn tool_name(self) -> (r: &'static str)
        ensures
            r@ == self.name_spec(),
    {
        match self {
            ExposedTool::FindFiles => "find_files",
            ExposedTool::Grep => "grep",
            ExposedTool::MultiGrep => "multi_grep",
        }
    }

    /// Every tool, in a fixed order.
    pub fn all() -> (r: [ExposedTool; 3])
        ensures
            r@ == seq![ExposedTool::FindFiles, ExposedTool::Grep, ExposedTool::MultiGrep],
    {
        [ExposedTool::FindFiles, ExposedTool::Grep, ExposedTool::MultiGrep]
    }
}

/// `s` when `b` holds, nothing otherwise.
pub open spec fn when(b: bool, s: Seq<char>) -> Seq<char> {
    if b {
        s
    } else {
        seq![]
    }
}

pub open spec fn intro_spec() -> Seq<char> {
    "FFF is a fast file finder with frecency-ranked results (frequent/recent files first, git-dirty files boosted).\n\n"@
}

pub open spec fn tool_list_spec(find: bool, grep: bool, multi: bool) -> Seq<char> {
    "## Which Tool Should I Use?\n\n"@
        + when(grep, "- **grep**: DEFAULT tool. Searches file CONTENTS -- definitions, usage, patterns. Use when you have a specific name or pattern.\n"@)
        + when(find, "- **find_files**: Explores which files/modules exist for a topic. Use when you DON'T have a specific identifier or LOOKING FOR A FILE.\n"@)
        + when(multi, "- **multi_grep**: OR logic across multiple patterns. Use for case variants (e.g. ['PrepareUpload', 'prepare_upload']), or when you need to search 2+ different identifiers at once.\n"@)
}

pub open spec fn rule_one_spec() -> Seq<char> {
    "\n## Core Rules\n\n"@
        + "### 1. Search BARE IDENTIFIERS only\n"@
        + "Grep matches single lines. Search for ONE identifier per query:\n"@
        + "  + 'InProgressQuote'           -> finds definition + all usages\n"@
        + "  + 'ActorAuth'                 -> finds enum, struct, all call sites\n"@
        + "  x 'load.*metadata.*InProgressQuote' -> regex spanning multiple tokens, 0 results\n"@
        + "  x 'ctx.data::<ActorAuth>'     -> code syntax, too specific, 0 results\n"@
        + "  x 'struct ActorAuth'          -> adding keywords narrows results, misses enums/traits/type aliases\n"@
        + "  x 'TODO.*#\\d+'               -> complex regex, use simple 'TODO' then filter visually\n\n"@
}

pub open spec fn rule_two_spec(multi: bool) -> Seq<char> {
    "### 2. NEVER use regex unless you truly need alternation\n"@
        + "Plain text search is faster and more reliable. Regex patterns like `.*`, `\\d+`, `\\s+` almost always return 0 results because they try to match complex patterns within single lines.\n"@
        + when(multi, "If you need OR logic, use multi_grep with literal patterns instead of regex alternation.\n"@)
        + "\n"@
}

pub open spec fn rule_three_spec() -> Seq<char> {
    "### 3. Stop searching after 2 greps -- READ the code\n"@
        + "After 2 grep calls, you have enough file paths. Read the top result to understand the code.\n"@
        + "Do NOT keep grepping with variations. More greps != better understanding.\n\n"@
}

pub open spec fn rule_four_spec() -> Seq<char> {
    "### 4. Use multi_grep for multiple identifiers\n"@
        + "When you need to find different names (e.g. snake_case + PascalCase, or definition + usage patterns), use ONE multi_grep call instead of sequential greps:\n"@
        + "  + multi_grep(['ActorAuth', 'PopulatedActorAuth', 'actor_auth'])\n"@
        + "  x grep 'ActorAuth' -> grep 'PopulatedActorAuth' -> grep 'actor_auth'  (3 calls wasted)\n\n"@
}

pub open spec fn core_rules_spec(multi: bool) -> Seq<char> {
    rule_one_spec() + rule_two_spec(multi) + rule_three_spec() + when(multi, rule_four_spec())
}

pub open spec fn workflow_spec(find: bool, grep: bool, multi: bool) -> Seq<char> {
    "## Workflow\n\n"@
        + when(grep, "**Have a specific name?** -> grep the bare identifier.\n"@)
        + when(multi, "**Need multiple name variants?** -> multi_grep with all variants in one call.\n"@)
        + when(find, "**Exploring a topic / finding files?** -> find_files.\n"@)
        + when(grep || multi, "**Got results?** -> Read the top file. Don't grep again.\n"@)
}

pub open spec fn constraint_intro_spec(grep: bool, multi: bool) -> Seq<char> {
    "\n## Constraint Syntax\n\n"@
        + when(grep, "For grep: constraints go INLINE, prepended before the search text.\n"@)
        + when(multi, "For multi_grep: constraints go in the separate 'constraints' parameter.\n"@)
        + "\n"@
}

pub open spec fn constraint_formats_spec() -> Seq<char> {
    "Constraints MUST match one of these formats:\n"@
        + "  Extension: '*.rs', '*.{ts,tsx}'\n"@
        + "  Directory: 'src/', 'quotes/'\n"@
        + "  Filename: 'schema.rs', 'src/main.rs'\n"@
        + "  Exclude: '!test/', '!*.spec.ts'\n\n"@
        + "! Bare words without extensions are NOT constraints. 'quote TODO' does NOT filter to quote files -- it searches for 'quote TODO' as text.\n"@
        + "  + 'schema.rs TODO'   -> searches for 'TODO' in files schema.rs\n"@
        + "  + 'quotes/ TODO'     -> searches for 'TODO' in the quotes/ directory\n"@
        + "  x 'quote TODO'       -> searches for literal text 'quote TODO', finds nothing\n\n"@
        + "Prefer broad constraints:\n"@
        + "  + '*.rs query'           -> file type\n"@
        + "  + 'quotes/ query'        -> top-level dir\n"@
        + "  x 'quotes/storage/db/ query' -> too specific, misses results\n\n"@
}

pub open spec fn output_format_spec() -> Seq<char> {
    "## Output Format\n\n"@
        + "grep results auto-expand definitions with body context (struct fields, function signatures).\n"@
        + "This often provides enough information WITHOUT a follow-up Read call.\n"@
        + "Lines marked with | are definition body context. [def] marks definition files.\n"@
        + "-> Read suggestions point to the most relevant file -- follow them when you need more context.\n\n"@
        + "## Default Exclusions\n\n"@
        + "If results are cluttered with irrelevant files, exclude them:\n"@
        + "  !tests/ - exclude tests directory\n"@
        + "  !*.spec.ts - exclude test files\n"@
        + "  !generated/ - exclude generated code"@
}

/// The usage guide for a client offered the tools flagged: an introduction,
/// a line per offered tool, the search rules (only when a content search is
/// offered, the multi-pattern rules only with `multi_grep`), the workflow,
/// and, with a content search, the constraint syntax and output format.
pub open spec fn instructions_spec(find: bool, grep: bool, multi: bool) -> Seq<char> {
    intro_spec()
        + tool_list_spec(find, grep, multi)
        + when(grep || multi, core_rules_spec(multi))
        + workflow_spec(find, grep, multi)
        + when(
        grep || multi,
        constraint_intro_spec(grep, multi) + constraint_formats_spec() + output_format_spec(),
    )
}

/// Append `part` to `s` when `b` holds.
fn append_when(s: &mut String, b: bool, part: &str)
    ensures
        final(s)@ == old(s)@ + when(b, part@),
{
    if b {
        s.append(part);
    } else {
        assert(old(s)@ + when(b, part@) =~= old(s)@);
    }
}

fn tool_list(find: bool, grep: bool, multi: bool) -> (r: String)
    ensures
        r@ == tool_list_spec(find, grep, multi),
{
    let mut s = String::from_str("## Which Tool Should I Use?\n\n");
    append_when(&mut s, grep, "- **grep**: DEFAULT tool. Searches file CONTENTS -- definitions, usage, patterns. Use when you have a specific name or pattern.\n");
    append_when(&mut s, find, "- **find_files**: Explores which files/modules exist for a topic. Use when you DON'T have a specific identifier or LOOKING FOR A FILE.\n");
    append_when(&mut s, multi, "- **multi_grep**: OR logic across multiple patterns. Use for case variants (e.g. ['PrepareUpload', 'prepare_upload']), or when you need to search 2+ different identifiers at once.\n");
    s
}

fn rule_one() -> (r: String)
    ensures
        r@ == rule_one_spec(),
{
    let mut s = String::from_str("\n## Core Rules\n\n");
    s.append("### 1. Search BARE IDENTIFIERS only\n");
    s.append("Grep matches single lines. Search for ONE identifier per query:\n");
    s.append("  + 'InProgressQuote'           -> finds definition + all usages\n");
    s.append("  + 'ActorAuth'                 -> finds enum, struct, all call sites\n");
    s.append("  x 'load.*metadata.*InProgressQuote' -> regex spanning multiple tokens, 0 results\n");
    s.append("  x 'ctx.data::<ActorAuth>'     -> code syntax, too specific, 0 results\n");
    s.append("  x 'struct ActorAuth'          -> adding keywords narrows results, misses enums/traits/type aliases\n");
    s.append("  x 'TODO.*#\\d+'               -> complex regex, use simple 'TODO' then filter visually\n\n");
    s
}

fn core_rules(multi: bool) -> (r: String)
    ensures
        r@ == core_rules_spec(multi),
{
    let mut s = rule_one();
    let ghost one = s@;
    s.append("### 2. NEVER use regex unless you truly need alternation\n");
    s.append("Plain text search is faster and more reliable. Regex patterns like `.*`, `\\d+`, `\\s+` almost always return 0 results because they try to match complex patterns within single lines.\n");
    append_when(&mut s, multi, "If you need OR logic, use multi_grep with literal patterns instead of regex alternation.\n");
    s.append("\n");
    assert(s@ =~= one + rule_two_spec(multi));
    let ghost two = s@;
    s.append("### 3. Stop searching after 2 greps -- READ the code\n");
    s.append("After 2 grep calls, you have enough file paths. Read the top result to understand the code.\n");
    s.append("Do NOT keep grepping with variations. More greps != better understanding.\n\n");
    assert(s@ =~= two + rule_three_spec());
    let ghost three = s@;
    if multi {
        s.append("### 4. Use multi_grep for multiple identifiers\n");
        s.append("When you need to find different names (e.g. snake_case + PascalCase, or definition + usage patterns), use ONE multi_grep call instead of sequential greps:\n");
        s.append("  + multi_grep(['ActorAuth', 'PopulatedActorAuth', 'actor_auth'])\n");
        s.append("  x grep 'ActorAuth' -> grep 'PopulatedActorAuth' -> grep 'actor_auth'  (3 calls wasted)\n\n");
        assert(s@ =~= three + rule_four_spec());
    }
    assert(s@ =~= core_rules_spec(multi));
    s
}

fn workflow(find: bool, grep: bool, multi: bool) -> (r: String)
    ensures
        r@ == workflow_spec(find, grep, multi),
{
    let mut s = String::from_str("## Workflow\n\n");
    append_when(&mut s, grep, "**Have a specific name?** -> grep the bare identifier.\n");
    append_when(&mut s, multi, "**Need multiple name variants?** -> multi_grep with all variants in one call.\n");
    append_when(&mut s, find, "**Exploring a topic / finding files?** -> find_files.\n");
    append_when(&mut s, grep || multi, "**Got results?** -> Read the top file. Don't grep again.\n");
    s
}

fn constraint_section(grep: bool, multi: bool) -> (r: String)
    ensures
        r@ == constraint_intro_spec(grep, multi) + constraint_formats_spec() + output_format_spec(),
{
    let mut s = String::from_str("\n## Constraint Syntax\n\n");
    append_when(&mut s, grep, "For grep: constraints go INLINE, prepended before the search text.\n");
    append_when(&mut s, multi, "For multi_grep: constraints go in the separate 'constraints' parameter.\n");
    s.append("\n");
    let ghost intro = s@;
    assert(intro =~= constraint_intro_spec(grep, multi));
    s.append("Constraints MUST match one of these formats:\n");
    s.append("  Extension: '*.rs', '*.{ts,tsx}'\n");
    s.append("  Directory: 'src/', 'quotes/'\n");
    s.append("  Filename: 'schema.rs', 'src/main.rs'\n");
    s.append("  Exclude: '!test/', '!*.spec.ts'\n\n");
    s.append("! Bare words without extensions are NOT constraints. 'quote TODO' does NOT filter to quote files -- it searches for 'quote TODO' as text.\n");
    s.append("  + 'schema.rs TODO'   -> searches for 'TODO' in files schema.rs\n");
    s.append("  + 'quotes/ TODO'     -> searches for 'TODO' in the quotes/ directory\n");
    s.append("  x 'quote TODO'       -> searches for literal text 'quote TODO', finds nothing\n\n");
    s.append("Prefer broad constraints:\n");
    s.append("  + '*.rs query'           -> file type\n");
    s.append("  + 'quotes/ query'        -> top-level dir\n");
    s.append("  x 'quotes/storage/db/ query' -> too specific, misses results\n\n");
    let ghost formats = s@;
    assert(formats =~= intro + constraint_formats_spec());
    s.append("## Output Format\n\n");
    s.append("grep results auto-expand definitions with body context (struct fields, function signatures).\n");
    s.append("This often provides enough information WITHOUT a follow-up Read call.\n");
    s.append("Lines marked with | are definition body context. [def] marks definition files.\n");
    s.append("-> Read suggestions point to the most relevant file -- follow them when you need more context.\n\n");
    s.append("## Default Exclusions\n\n");
    s.append("If results are cluttered with irrelevant files, exclude them:\n");
    s.append("  !tests/ - exclude tests directory\n");
    s.append("  !*.spec.ts - exclude test files\n");
    s.append("  !generated/ - exclude generated code");
    assert(s@ =~= formats + output_format_spec());
    s
}

/// Which of the three tools occur in `tools`.
fn offered(tools: &[ExposedTool]) -> (r: (bool, bool, bool))
    ensures
        r.0 == tools@.contains(ExposedTool::FindFiles),
        r.1 == tools@.contains(ExposedTool::Grep),
        r.2 == tools@.contains(ExposedTool::MultiGrep),
{
    let mut find = false;
    let mut grep = false;
    let mut multi = false;
    let mut i: usize = 0;
    while i < tools.len()
        invariant
            i <= tools@.len(),
            find == tools@.take(i as int).contains(ExposedTool::FindFiles),
            grep == tools@.take(i as int).contains(ExposedTool::Grep),
            multi == tools@.take(i as int).contains(ExposedTool::MultiGrep),
        decreases tools@.len() - i,
    {
        let t = tools[i];
        proof {
            let pre = tools@.take(i as int);
            let next = tools@.take(i + 1);
            assert(next =~= pre.push(t));
            assert(next.last() == t);
            assert forall|x: ExposedTool| #[trigger] next.contains(x) == (pre.contains(x) || x == t) by {
                if next.contains(x) {
                    let j = choose|j: int| 0 <= j < next.len() && next[j] == x;
                    if j < pre.len() {
                        assert(pre[j] == x);
                    }
                }
                if pre.contains(x) {
                    let j = choose|j: int| 0 <= j < pre.len() && pre[j] == x;
                    assert(next[j] == x);
                }
                if x == t {
                    assert(next[i as int] == x);
                }
            }
        }
        match t {
            ExposedTool::FindFiles => find = true,
            ExposedTool::Grep => grep = true,
            ExposedTool::MultiGrep => multi = true,
        }
        i = i + 1;
    }
    proof {
        assert(tools@.take(i as int) =~= tools@);
    }
    (find, grep, multi)
}

/// The usage guide for a client offered `tools` (see [`instructions_spec`]).
pub fn build_instructions(tools: &[ExposedTool]) -> (r: String)
    ensures
        r@ == instructions_spec(
            tools@.contains(ExposedTool::FindFiles),
            tools@.contains(ExposedTool::Grep),
            tools@.contains(ExposedTool::MultiGrep),
        ),
{
    let (find, grep, multi) = offered(tools);
    let mut s = String::from_str("FFF is a fast file finder with frecency-ranked results (frequent/recent files first, git-dirty files boosted).\n\n");
    let part = tool_list(find, grep, multi);
    s.append(part.as_str());
    let ghost head = s@;
    if grep || multi {
        let rules = core_rules(multi);
        s.append(rules.as_str());
    } else {
        assert(head + when(grep || multi, core_rules_spec(multi)) =~= head);
    }
    let ghost with_rules = s@;
    let flow = workflow(find, grep, multi);
    s.append(flow.as_str());
    let ghost with_flow = s@;
    if grep || multi {
        let tail = constraint_section(grep, multi);
        s.append(tail.as_str());
    } else {
        assert(with_flow + when(grep || multi, constraint_intro_spec(grep, multi) + constraint_formats_spec() + output_format_spec()) =~= with_flow);
    }
    s
}

} // verus!
