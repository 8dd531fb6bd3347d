use urne::parser::parse_text;
use urne::types::Election;
use urne::vote::VotingAlgorithm;
use urne::vote::baldwin::Baldwin;
use urne::vote::borda::Borda;
use urne::vote::bucklin::Bucklin;
use urne::vote::copeland::Copeland;
use urne::vote::copeland_borda::CopelandBorda;
use urne::vote::irv::IRV;
use urne::vote::plurality::Plurality;
use urne::vote::schulze::Schulze;
use urne::vote::smith_irv::SmithIRV;
use urne::vote::trs::Trs;

fn election(text: &str) -> Election {
    match parse_text(text) {
        Ok(e) => e,
        Err(err) => panic!("unexpected parse error: {:?}", err),
    }
}

fn simple_text() -> &'static str {
    "Alice;Bob;Carol\nAlice>Bob>Carol\nBob>Alice>Carol\nAlice>Carol\nCarol>Bob>Alice\nAlice\n"
}

#[test]
fn plurality_simple() {
    let e = election(simple_text());
    assert_eq!(Plurality.compute(&e).ranking, vec![0, 1, 2]);
}

#[test]
fn trs_simple() {
    let e = election(simple_text());
    assert_eq!(Trs.compute(&e).ranking, vec![0, 1, 2]);
}

#[test]
fn irv_simple() {
    let e = election(simple_text());
    assert_eq!(IRV.compute(&e).ranking, vec![0, 1, 2]);
}

#[test]
fn borda_simple() {
    let e = election(simple_text());
    assert_eq!(Borda.compute(&e).ranking, vec![0, 1, 2]);
}

#[test]
fn bucklin_simple() {
    let e = election(simple_text());
    assert_eq!(Bucklin.compute(&e).ranking, vec![0, 1, 2]);
}

#[test]
fn baldwin_simple() {
    let e = election(simple_text());
    assert_eq!(Baldwin.compute(&e).ranking, vec![0, 1, 2]);
}

#[test]
fn copeland_simple() {
    let e = election(simple_text());
    assert_eq!(Copeland.compute(&e).ranking, vec![0, 1, 2]);
}

#[test]
fn copeland_borda_simple() {
    let e = election(simple_text());
    assert_eq!(CopelandBorda.compute(&e).ranking, vec![0, 1, 2]);
}

#[test]
fn schulze_simple() {
    let e = election(simple_text());
    assert_eq!(Schulze.compute(&e).ranking, vec![0, 1, 2]);
}

#[test]
fn smith_irv_simple() {
    let e = election(simple_text());
    assert_eq!(SmithIRV.compute(&e).ranking, vec![0, 1, 2]);
}

fn cycle_text() -> &'static str {
    "A;B;C\nA>B>C\nA>B>C\nB>C>A\nB>C>A\nC>A>B\nC>A>B\nA>B>C\n"
}

#[test]
fn plurality_cycle() {
    let e = election(cycle_text());
    assert_eq!(Plurality.compute(&e).ranking, vec![0, 1, 2]);
}

#[test]
fn trs_cycle() {
    let e = election(cycle_text());
    assert_eq!(Trs.compute(&e).ranking, vec![0, 1, 2]);
}

#[test]
fn irv_cycle() {
    let e = election(cycle_text());
    assert_eq!(IRV.compute(&e).ranking, vec![0, 1, 2]);
}

#[test]
fn borda_cycle() {
    let e = election(cycle_text());
    assert_eq!(Borda.compute(&e).ranking, vec![0, 1, 2]);
}

#[test]
fn bucklin_cycle() {
    let e = election(cycle_text());
    assert_eq!(Bucklin.compute(&e).ranking, vec![0, 1, 2]);
}

#[test]
fn baldwin_cycle() {
    let e = election(cycle_text());
    assert_eq!(Baldwin.compute(&e).ranking, vec![0, 1, 2]);
}

#[test]
fn copeland_cycle() {
    let e = election(cycle_text());
    assert_eq!(Copeland.compute(&e).ranking, vec![0, 1, 2]);
}

#[test]
fn copeland_borda_cycle() {
    let e = election(cycle_text());
    assert_eq!(CopelandBorda.compute(&e).ranking, vec![0, 1, 2]);
}

#[test]
fn schulze_cycle() {
    let e = election(cycle_text());
    assert_eq!(Schulze.compute(&e).ranking, vec![0, 1, 2]);
}

#[test]
fn smith_irv_cycle() {
    let e = election(cycle_text());
    assert_eq!(SmithIRV.compute(&e).ranking, vec![0, 2, 1]);
}

fn tie_text() -> &'static str {
    "Zed;Amy\nZed\nAmy\n"
}

#[test]
fn plurality_tie() {
    let e = election(tie_text());
    assert_eq!(Plurality.compute(&e).ranking, vec![1, 0]);
}

#[test]
fn trs_tie() {
    let e = election(tie_text());
    assert_eq!(Trs.compute(&e).ranking, vec![1, 0]);
}

#[test]
fn irv_tie() {
    let e = election(tie_text());
    assert_eq!(IRV.compute(&e).ranking, vec![0, 1]);
}

#[test]
fn borda_tie() {
    let e = election(tie_text());
    assert_eq!(Borda.compute(&e).ranking, vec![1, 0]);
}

#[test]
fn bucklin_tie() {
    let e = election(tie_text());
    assert_eq!(Bucklin.compute(&e).ranking, vec![1, 0]);
}

#[test]
fn baldwin_tie() {
    let e = election(tie_text());
    assert_eq!(Baldwin.compute(&e).ranking, vec![1, 0]);
}

#[test]
fn copeland_tie() {
    let e = election(tie_text());
    assert_eq!(Copeland.compute(&e).ranking, vec![1, 0]);
}

#[test]
fn copeland_borda_tie() {
    let e = election(tie_text());
    assert_eq!(CopelandBorda.compute(&e).ranking, vec![1, 0]);
}

#[test]
fn schulze_tie() {
    let e = election(tie_text());
    assert_eq!(Schulze.compute(&e).ranking, vec![1, 0]);
}

#[test]
fn smith_irv_tie() {
    let e = election(tie_text());
    assert_eq!(SmithIRV.compute(&e).ranking, vec![1, 0]);
}

fn runoff_text() -> &'static str {
    "A;B;C;D\nA>B\nA>C\nB>C\nB>A\nC>B\nD>B\nD>C\n"
}

#[test]
fn plurality_runoff() {
    let e = election(runoff_text());
    assert_eq!(Plurality.compute(&e).ranking, vec![0, 1, 3, 2]);
}

#[test]
fn trs_runoff() {
    let e = election(runoff_text());
    assert_eq!(Trs.compute(&e).ranking, vec![1, 0, 3, 2]);
}

#[test]
fn irv_runoff() {
    let e = election(runoff_text());
    assert_eq!(IRV.compute(&e).ranking, vec![1, 0, 3, 2]);
}

#[test]
fn borda_runoff() {
    let e = election(runoff_text());
    assert_eq!(Borda.compute(&e).ranking, vec![1, 2, 0, 3]);
}

#[test]
fn bucklin_runoff() {
    let e = election(runoff_text());
    assert_eq!(Bucklin.compute(&e).ranking, vec![1, 2, 0, 3]);
}

#[test]
fn baldwin_runoff() {
    let e = election(runoff_text());
    assert_eq!(Baldwin.compute(&e).ranking, vec![1, 0, 2, 3]);
}

#[test]
fn copeland_runoff() {
    let e = election(runoff_text());
    assert_eq!(Copeland.compute(&e).ranking, vec![1, 0, 2, 3]);
}

#[test]
fn copeland_borda_runoff() {
    let e = election(runoff_text());
    assert_eq!(CopelandBorda.compute(&e).ranking, vec![1, 2, 0, 3]);
}

#[test]
fn schulze_runoff() {
    let e = election(runoff_text());
    assert_eq!(Schulze.compute(&e).ranking, vec![1, 0, 2, 3]);
}

#[test]
fn smith_irv_runoff() {
    let e = election(runoff_text());
    assert_eq!(SmithIRV.compute(&e).ranking, vec![1, 0, 2, 3]);
}

fn partial_text() -> &'static str {
    "A;B;C\nA\nB>C\n"
}

#[test]
fn plurality_partial() {
    let e = election(partial_text());
    assert_eq!(Plurality.compute(&e).ranking, vec![0, 1, 2]);
}

#[test]
fn trs_partial() {
    let e = election(partial_text());
    assert_eq!(Trs.compute(&e).ranking, vec![0, 1, 2]);
}

#[test]
fn irv_partial() {
    let e = election(partial_text());
    assert_eq!(IRV.compute(&e).ranking, vec![0, 1, 2]);
}

#[test]
fn borda_partial() {
    let e = election(partial_text());
    assert_eq!(Borda.compute(&e).ranking, vec![0, 1, 2]);
}

#[test]
fn bucklin_partial() {
    let e = election(partial_text());
    assert_eq!(Bucklin.compute(&e).ranking, vec![0, 1, 2]);
}

#[test]
fn baldwin_partial() {
    let e = election(partial_text());
    assert_eq!(Baldwin.compute(&e).ranking, vec![0, 1, 2]);
}

#[test]
fn copeland_partial() {
    let e = election(partial_text());
    assert_eq!(Copeland.compute(&e).ranking, vec![1, 0, 2]);
}

#[test]
fn copeland_borda_partial() {
    let e = election(partial_text());
    assert_eq!(CopelandBorda.compute(&e).ranking, vec![1, 0, 2]);
}

#[test]
fn schulze_partial() {
    let e = election(partial_text());
    assert_eq!(Schulze.compute(&e).ranking, vec![0, 1, 2]);
}

#[test]
fn smith_irv_partial() {
    let e = election(partial_text());
    assert_eq!(SmithIRV.compute(&e).ranking, vec![0, 1, 2]);
}

fn wiki_text() -> &'static str {
    "A;B;C;D;E\nA>C>B>E>D\nA>C>B>E>D\nA>C>B>E>D\nA>C>B>E>D\nA>C>B>E>D\nA>D>E>C>B\nA>D>E>C>B\nA>D>E>C>B\nA>D>E>C>B\nA>D>E>C>B\nB>E>D>A>C\nB>E>D>A>C\nB>E>D>A>C\nB>E>D>A>C\nB>E>D>A>C\nB>E>D>A>C\nB>E>D>A>C\nB>E>D>A>C\nC>A>B>E>D\nC>A>B>E>D\nC>A>B>E>D\nC>A>E>B>D\nC>A>E>B>D\nC>A>E>B>D\nC>A>E>B>D\nC>A>E>B>D\nC>A>E>B>D\nC>A>E>B>D\nC>B>A>D>E\nC>B>A>D>E\nD>C>E>B>A\nD>C>E>B>A\nD>C>E>B>A\nD>C>E>B>A\nD>C>E>B>A\nD>C>E>B>A\nD>C>E>B>A\nE>B>A>D>C\nE>B>A>D>C\nE>B>A>D>C\nE>B>A>D>C\nE>B>A>D>C\nE>B>A>D>C\nE>B>A>D>C\nE>B>A>D>C\n"
}

#[test]
fn plurality_wiki() {
    let e = election(wiki_text());
    assert_eq!(Plurality.compute(&e).ranking, vec![2, 0, 1, 4, 3]);
}

#[test]
fn trs_wiki() {
    let e = election(wiki_text());
    assert_eq!(Trs.compute(&e).ranking, vec![0, 2, 1, 4, 3]);
}

#[test]
fn irv_wiki() {
    let e = election(wiki_text());
    assert_eq!(IRV.compute(&e).ranking, vec![2, 1, 0, 4, 3]);
}

#[test]
fn borda_wiki() {
    let e = election(wiki_text());
    assert_eq!(Borda.compute(&e).ranking, vec![4, 0, 1, 2, 3]);
}

#[test]
fn bucklin_wiki() {
    let e = election(wiki_text());
    assert_eq!(Bucklin.compute(&e).ranking, vec![2, 4, 0, 1, 3]);
}

#[test]
fn baldwin_wiki() {
    let e = election(wiki_text());
    assert_eq!(Baldwin.compute(&e).ranking, vec![4, 0, 2, 1, 3]);
}

#[test]
fn copeland_wiki() {
    let e = election(wiki_text());
    assert_eq!(Copeland.compute(&e).ranking, vec![4, 0, 1, 2, 3]);
}

#[test]
fn copeland_borda_wiki() {
    let e = election(wiki_text());
    assert_eq!(CopelandBorda.compute(&e).ranking, vec![4, 0, 1, 2, 3]);
}

#[test]
fn schulze_wiki() {
    let e = election(wiki_text());
    assert_eq!(Schulze.compute(&e).ranking, vec![4, 0, 2, 1, 3]);
}

#[test]
fn smith_irv_wiki() {
    let e = election(wiki_text());
    assert_eq!(SmithIRV.compute(&e).ranking, vec![2, 0, 4, 3, 1]);
}

fn cond_text() -> &'static str {
    "X;Y;Z;W\nY>X>Z\nX>Y>W\nZ>X\nW>X>Y\nX>Z>Y\n"
}

#[test]
fn plurality_cond() {
    let e = election(cond_text());
    assert_eq!(Plurality.compute(&e).ranking, vec![0, 3, 1, 2]);
}

#[test]
fn trs_cond() {
    let e = election(cond_text());
    assert_eq!(Trs.compute(&e).ranking, vec![0, 3, 1, 2]);
}

#[test]
fn irv_cond() {
    let e = election(cond_text());
    assert_eq!(IRV.compute(&e).ranking, vec![0, 1, 2, 3]);
}

#[test]
fn borda_cond() {
    let e = election(cond_text());
    assert_eq!(Borda.compute(&e).ranking, vec![0, 1, 2, 3]);
}

#[test]
fn bucklin_cond() {
    let e = election(cond_text());
    assert_eq!(Bucklin.compute(&e).ranking, vec![0, 1, 2, 3]);
}

#[test]
fn baldwin_cond() {
    let e = election(cond_text());
    assert_eq!(Baldwin.compute(&e).ranking, vec![0, 1, 2, 3]);
}

#[test]
fn copeland_cond() {
    let e = election(cond_text());
    assert_eq!(Copeland.compute(&e).ranking, vec![0, 1, 2, 3]);
}

#[test]
fn copeland_borda_cond() {
    let e = election(cond_text());
    assert_eq!(CopelandBorda.compute(&e).ranking, vec![0, 1, 2, 3]);
}

#[test]
fn schulze_cond() {
    let e = election(cond_text());
    assert_eq!(Schulze.compute(&e).ranking, vec![0, 1, 2, 3]);
}

#[test]
fn smith_irv_cond() {
    let e = election(cond_text());
    assert_eq!(SmithIRV.compute(&e).ranking, vec![0, 1, 2, 3]);
}

fn irvx_text() -> &'static str {
    "A;B;C;D\nA>B>C>D\nB>C>A\nC>B>A\nD>C>B>A\nA>D\nB>A\nC>A>D\n"
}

#[test]
fn plurality_irvx() {
    let e = election(irvx_text());
    assert_eq!(Plurality.compute(&e).ranking, vec![0, 1, 2, 3]);
}

#[test]
fn trs_irvx() {
    let e = election(irvx_text());
    assert_eq!(Trs.compute(&e).ranking, vec![1, 0, 2, 3]);
}

#[test]
fn irv_irvx() {
    let e = election(irvx_text());
    assert_eq!(IRV.compute(&e).ranking, vec![2, 0, 1, 3]);
}

#[test]
fn borda_irvx() {
    let e = election(irvx_text());
    assert_eq!(Borda.compute(&e).ranking, vec![0, 1, 2, 3]);
}

#[test]
fn bucklin_irvx() {
    let e = election(irvx_text());
    assert_eq!(Bucklin.compute(&e).ranking, vec![0, 1, 2, 3]);
}

#[test]
fn baldwin_irvx() {
    let e = election(irvx_text());
    assert_eq!(Baldwin.compute(&e).ranking, vec![1, 2, 0, 3]);
}

#[test]
fn copeland_irvx() {
    let e = election(irvx_text());
    assert_eq!(Copeland.compute(&e).ranking, vec![1, 2, 0, 3]);
}

#[test]
fn copeland_borda_irvx() {
    let e = election(irvx_text());
    assert_eq!(CopelandBorda.compute(&e).ranking, vec![1, 2, 0, 3]);
}

#[test]
fn schulze_irvx() {
    let e = election(irvx_text());
    assert_eq!(Schulze.compute(&e).ranking, vec![1, 2, 0, 3]);
}

#[test]
fn smith_irv_irvx() {
    let e = election(irvx_text());
    assert_eq!(SmithIRV.compute(&e).ranking, vec![1, 2, 0, 3]);
}
