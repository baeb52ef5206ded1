use oximedia::svg_renderer::SvgRenderer;

#[test]
fn renderer_new_equals_default() {
    assert_eq!(SvgRenderer::new(), SvgRenderer::default());
}
