use spectra::ssl::{parse_u32, trim, GeometryYieldExpression, ParseError, PipelineAttribute};

#[test]
fn parse_pipeline_attribute() {
    let geo_max_vertices = "geometry_shader_max_vertices = 3";
    let geo_max_vertices1 = "geometry_shader_max_vertices =3";
    let geo_max_vertices2 = "geometry_shader_max_vertices =";
    let geo_max_vertices3 = "geometry_shader_max_vertices = ";
    let geo_invokations = "geometry_shader_invokations = 1";
    let geo_invokations1 = "geometry_shader_invokations =1";
    let geo_invokations2 = "geometry_shader_invokations =";
    let geo_invokations3 = "geometry_shader_invokations = ";

    assert_eq!(geo_max_vertices.parse::<PipelineAttribute>(), Ok(PipelineAttribute::GeometryShaderMaxVertices(3)));
    assert_eq!(geo_max_vertices1.parse::<PipelineAttribute>(), Ok(PipelineAttribute::GeometryShaderMaxVertices(3)));
    assert!(geo_max_vertices2.parse::<PipelineAttribute>().is_err());
    assert!(geo_max_vertices3.parse::<PipelineAttribute>().is_err());
    assert_eq!(geo_invokations.parse::<PipelineAttribute>(), Ok(PipelineAttribute::GeometryShaderInvokations(1)));
    assert_eq!(geo_invokations1.parse::<PipelineAttribute>(), Ok(PipelineAttribute::GeometryShaderInvokations(1)));
    assert!(geo_invokations2.parse::<PipelineAttribute>().is_err());
    assert!(geo_invokations3.parse::<PipelineAttribute>().is_err());
}

#[test]
fn parse_geometry_yield_expression() {
    let yieldprim = "yieldprim";
    let yield_1 = "yield FoldVertex(vertex[i].color)";

    assert_eq!(yieldprim.parse::<GeometryYieldExpression>(), Ok(GeometryYieldExpression::YieldPrimitive));
    assert_eq!(
        yield_1.parse::<GeometryYieldExpression>(),
        Ok(GeometryYieldExpression::YieldFoldVertex("FoldVertex(vertex[i].color)".into()))
    );
}

fn message_of(r: Result<PipelineAttribute, ParseError>) -> String {
    match r {
        Err(ParseError::ExpressionError(m)) => m,
        Ok(a) => panic!("expected an error, got {:?}", a),
    }
}

#[test]
fn attribute_error_messages() {
    assert_eq!(message_of(PipelineAttribute::parse_str("geometry_shader_max_vertices 3")), "cannot find =");
    assert_eq!(message_of(PipelineAttribute::parse_str("geometry_shader_max_vertices =")), "no value");
    assert_eq!(
        message_of(PipelineAttribute::parse_str("geometry_shader_max_vertices = x1 ")),
        "unable to parse geometry_shader_max_vertices, found x1"
    );
    assert_eq!(
        message_of(PipelineAttribute::parse_str("geometry_shader_invokations = -1")),
        "unable to parse geometry_shader_invokation, found -1"
    );
    assert_eq!(
        message_of(PipelineAttribute::parse_str(" colour = 3")),
        "expected a valid pipeline attribute, found  colour "
    );
}

#[test]
fn attribute_key_and_value_are_trimmed() {
    assert_eq!(
        PipelineAttribute::parse_str("\t geometry_shader_invokations\u{a0}=\n +42 \u{3000}"),
        Ok(PipelineAttribute::GeometryShaderInvokations(42))
    );
    assert_eq!(
        PipelineAttribute::parse_str("geometry_shader_max_vertices = 1 = 2"),
        Err(ParseError::ExpressionError("unable to parse geometry_shader_max_vertices, found 1 = 2".into()))
    );
}

#[test]
fn attribute_value_bounds() {
    assert_eq!(
        PipelineAttribute::parse_str("geometry_shader_max_vertices=4294967295"),
        Ok(PipelineAttribute::GeometryShaderMaxVertices(4294967295))
    );
    assert!(PipelineAttribute::parse_str("geometry_shader_max_vertices=4294967296").is_err());
    assert!(PipelineAttribute::parse_str("geometry_shader_max_vertices=+").is_err());
}

#[test]
fn parse_u32_like_std() {
    for s in ["0", "+7", "007", "4294967295", "4294967296", "", "+", "-0", "1 2", "12a", "99999999999999999999"] {
        assert_eq!(parse_u32(s), s.parse::<u32>().ok(), "input {:?}", s);
    }
}

#[test]
fn trim_like_std() {
    for s in ["", "   ", " a ", "\u{2000}b\u{200a}", "\u{85}c d\u{2029}", "x"] {
        assert_eq!(trim(s), s.trim(), "input {:?}", s);
    }
}

#[test]
fn yield_expression_errors() {
    assert_eq!(
        GeometryYieldExpression::parse_str("yield "),
        Err(ParseError::ExpressionError("expected yield, found yield ".into()))
    );
    assert_eq!(
        GeometryYieldExpression::parse_str("yieldprim "),
        Err(ParseError::ExpressionError("expected yield, found yieldprim ".into()))
    );
    assert_eq!(
        GeometryYieldExpression::parse_str("yield x"),
        Ok(GeometryYieldExpression::YieldFoldVertex("x".into()))
    );
}
