use circuit_netlist::systemverilog::{SizedVerilogKind, UnsizedVerilogKind};
use circuit_netlist::systemverilog::VerilogKind as DataKind;
use circuit_netlist::text::decimal;
use circuit_netlist::verilog::{VerilogKind, VerilogNetKind, VerilogPrimitive, VerilogVariableKind};

#[test]
fn default_kinds() {
    assert_eq!(VerilogNetKind::default(), VerilogNetKind::Wire);
    assert_eq!(
        VerilogVariableKind::default(),
        VerilogVariableKind::Reg { signed: false, size: 1 }
    );
    assert_eq!(
        VerilogKind::default(),
        VerilogKind::Net { kind: VerilogNetKind::Wire, size: 1, signed: false }
    );
    assert_ne!(VerilogPrimitive::Add, VerilogPrimitive::Subtract);
}

#[test]
fn net_declarations() {
    let net = |kind, size, signed| VerilogKind::Net { kind, size, signed }.to_string();
    assert_eq!(net(VerilogNetKind::Wire, 1, false), "wire");
    assert_eq!(net(VerilogNetKind::Wire, 1, true), "wire signed ");
    assert_eq!(net(VerilogNetKind::Wire, 8, false), "wire[7:0]");
    assert_eq!(net(VerilogNetKind::Wire, 8, true), "wire signed [7:0]");
    assert_eq!(net(VerilogNetKind::WOr, 2, false), "wor[1:0]");
    assert_eq!(net(VerilogNetKind::WAnd, 1, false), "wand");
    assert_eq!(net(VerilogNetKind::Tri0, 16, false), "tri0[15:0]");
    assert_eq!(net(VerilogNetKind::Tri1, 1, false), "tri1");
    assert_eq!(net(VerilogNetKind::Supply0, 1, false), "supply0");
    assert_eq!(net(VerilogNetKind::Supply1, 1, false), "supply1");
    assert_eq!(net(VerilogNetKind::TriReg, 1024, true), "trireg signed [1023:0]");
}

#[test]
fn variable_declarations() {
    let var = |kind| VerilogKind::Variable(kind).to_string();
    assert_eq!(var(VerilogVariableKind::Integer), "integer");
    assert_eq!(var(VerilogVariableKind::Real), "real");
    assert_eq!(var(VerilogVariableKind::Reg { signed: false, size: 1 }), "reg");
    assert_eq!(var(VerilogVariableKind::Reg { signed: false, size: 32 }), "reg[31:0]");
    assert_eq!(var(VerilogVariableKind::Reg { signed: true, size: 1 }), "reg signed ");
    assert_eq!(var(VerilogVariableKind::Reg { signed: true, size: 101 }), "reg signed [100:0]");
}

#[test]
fn decimal_text() {
    assert_eq!(decimal(0), "0");
    assert_eq!(decimal(9), "9");
    assert_eq!(decimal(10), "10");
    assert_eq!(decimal(1234567890), "1234567890");
    assert_eq!(decimal(u64::MAX), "18446744073709551615");
}

#[test]
fn kinds_with_and_without_size() {
    let plain = [
        (UnsizedVerilogKind::Byte, DataKind::Byte),
        (UnsizedVerilogKind::ShortInteger, DataKind::ShortInteger),
        (UnsizedVerilogKind::Integer, DataKind::Integer),
        (UnsizedVerilogKind::LongInteger, DataKind::LongInteger),
        (UnsizedVerilogKind::Time, DataKind::Time),
        (UnsizedVerilogKind::ShortReal, DataKind::ShortReal),
        (UnsizedVerilogKind::Real, DataKind::Real),
    ];
    for (short, long) in plain {
        assert_eq!(short.to_verilog_kind(), long);
        assert_eq!(UnsizedVerilogKind::from_verilog_kind(long), short);
    }
    assert_eq!(SizedVerilogKind::Bit.to_verilog_kind(3), DataKind::Bit(3));
    assert_eq!(SizedVerilogKind::Logic.to_verilog_kind(64), DataKind::Logic(64));
    assert_eq!(SizedVerilogKind::from_verilog_kind(DataKind::Bit(3)), SizedVerilogKind::Bit);
    assert_eq!(SizedVerilogKind::from_verilog_kind(DataKind::Logic(1)), SizedVerilogKind::Logic);
}
